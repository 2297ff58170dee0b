//! The executable position: board state, attack/pin tracking, move
//! generation, and reversible move application.

use vstd::prelude::*;
use crate::bitboard::{bit_set, lemma_bits_or, Bitboard};
use crate::geometry::{
    col_of, on_board, ray_contains, row_of, sq_at, step_on_board, step_sq,
};
use crate::attacks::{
    attack_from, attack_mark, attacked_by, bishop_checks, bishop_pin_masks, bishop_shadows,
    bpawn_tbl, checker_dir, checkers, checkers_upto, is_checker, jump_tbl, king_hits, king_off,
    king_tbl, knight_hits, knight_off, knight_tbl, material, material_upto, path_clear, pawn_hits,
    pawn_tbl, pin_dir_mask, pin_mask_from, pin_pattern, pinned_mark, owned_sq, rook_checks,
    rook_pin_masks, rook_shadows, shadow_dir, shadow_from, shadowed_by, slider_attack, bishop_rays,
    rook_rays, wpawn_tbl,
};
use crate::model::{
    apply_board, apply_core, castle_list, castle_ok, ep_after, filter_ok, in_check_now, is_move,
    king_of_stm, make_record, pseudo_ok, rights_after, undo_core, wf, CastlingRights, ChessMove,
    GameCore, knight_move_ok, king_move_ok, pawn_move_ok, rook_move_ok, bishop_move_ok,
};
use crate::piece::{
    enemy_king, is_bishoplike, is_king, is_rooklike, is_slider, is_white_p, opponent,
    opponent_or_empty, piece_value, Piece,
};

verus! {

/// A sequence extended by one element contains exactly the old elements and
/// the new one.
pub proof fn lemma_push_contains<T>(s: Seq<T>, x: T)
    ensures
        forall|y: T| #[trigger] s.push(x).contains(y) <==> s.contains(y) || y == x,
{
    assert forall|y: T| #[trigger] s.push(x).contains(y) <==> s.contains(y) || y == x by {
        if s.push(x).contains(y) {
            let i = choose|i: int| 0 <= i < s.push(x).len() && s.push(x)[i] == y;
            if i < s.len() {
                assert(s[i] == y);
            }
        }
        if s.contains(y) {
            let i = choose|i: int| 0 <= i < s.len() && s[i] == y;
            assert(s.push(x)[i] == y);
        }
        if y == x {
            assert(s.push(x)[s.len() as int] == y);
        }
    }
}

/// A duplicate-free sequence stays duplicate-free when a fresh element is
/// appended.
pub proof fn lemma_push_distinct<T>(s: Seq<T>, x: T)
    requires
        !s.contains(x),
        forall|i: int, j: int| 0 <= i < j < s.len() ==> #[trigger] s[i] != #[trigger] s[j],
    ensures
        forall|i: int, j: int|
            0 <= i < j < s.push(x).len() ==> #[trigger] s.push(x)[i] != #[trigger] s.push(x)[j],
{
    assert forall|i: int, j: int|
        0 <= i < j < s.push(x).len() implies #[trigger] s.push(x)[i] != #[trigger] s.push(x)[j] by {
        if j == s.len() {
            if s[i] == x {
                assert(s.contains(x));
            }
        }
    }
}

/// Whether the square list already holds `t`.
fn contains_sq(v: &Vec<u8>, t: u8) -> (r: bool)
    ensures
        r == v@.contains(t),
{
    let n: usize = v.len();
    let mut k: usize = 0;
    while k < n
        invariant
            n == v@.len(),
            k <= n,
            forall|j: int| 0 <= j < k ==> v@[j] != t,
        decreases n - k,
    {
        if v[k] == t {
            proof {
                assert(v@[k as int] == t);
            }
            return true;
        }
        k = k + 1;
    }
    proof {
        if v@.contains(t) {
            let j = choose|j: int| 0 <= j < v@.len() && v@[j] == t;
            assert(false);
        }
    }
    false
}

/// The exec counterpart of `jump_tbl`: the square one `(dr, dc)` step away,
/// or 64 when that leaves the board.
fn jump_target(s: usize, dr: i32, dc: i32) -> (r: u8)
    requires
        s < 64,
        -2 <= dr <= 2,
        -2 <= dc <= 2,
    ensures
        r as int == jump_tbl(s as int, dr as int, dc as int),
        r <= 64,
{
    let row: i32 = (s / 8) as i32;
    let col: i32 = (s % 8) as i32;
    let nr: i32 = row + dr;
    let nc: i32 = col + dc;
    if 0 <= nr && nr < 8 && 0 <= nc && nc < 8 {
        (nr * 8 + nc) as u8
    } else {
        64
    }
}

fn knight_offset(j: usize) -> (r: (i32, i32))
    requires
        j < 8,
    ensures
        r.0 as int == knight_off(j as int).0,
        r.1 as int == knight_off(j as int).1,
{
    if j == 0 {
        (-2, -1)
    } else if j == 1 {
        (-1, 2)
    } else if j == 2 {
        (-1, -2)
    } else if j == 3 {
        (2, -1)
    } else if j == 4 {
        (2, 1)
    } else if j == 5 {
        (1, -2)
    } else if j == 6 {
        (1, 2)
    } else {
        (-2, 1)
    }
}

fn king_offset(j: usize) -> (r: (i32, i32))
    requires
        j < 8,
    ensures
        r.0 as int == king_off(j as int).0,
        r.1 as int == king_off(j as int).1,
{
    if j == 0 {
        (-1, -1)
    } else if j == 1 {
        (-1, 0)
    } else if j == 2 {
        (-1, 1)
    } else if j == 3 {
        (0, -1)
    } else if j == 4 {
        (0, 1)
    } else if j == 5 {
        (1, -1)
    } else if j == 6 {
        (1, 0)
    } else {
        (1, 1)
    }
}

/// The side with pieces in the first two rows of the array (rows 0 and 1) is
/// black; white's pieces fill rows 6 and 7.
pub open spec fn initial_piece(i: int) -> Piece {
    if i == 0 || i == 7 {
        Piece::Brook
    } else if i == 1 || i == 6 {
        Piece::Bknight
    } else if i == 2 || i == 5 {
        Piece::Bbishop
    } else if i == 3 {
        Piece::Bqueen
    } else if i == 4 {
        Piece::Bking
    } else if 8 <= i < 16 {
        Piece::Bpawn
    } else if 48 <= i < 56 {
        Piece::Wpawn
    } else if i == 56 || i == 63 {
        Piece::Wrook
    } else if i == 57 || i == 62 {
        Piece::Wknight
    } else if i == 58 || i == 61 {
        Piece::Wbishop
    } else if i == 59 {
        Piece::Wqueen
    } else if i == 60 {
        Piece::Wking
    } else {
        Piece::Empty
    }
}

/// The standard starting position, white to move.
pub open spec fn initial_core() -> GameCore {
    GameCore {
        board: Seq::new(64, |i: int| initial_piece(i)),
        castling: CastlingRights { wk: true, wq: true, bk: true, bq: true },
        en_passant: 64,
        white_turn: true,
        white_king: 60,
        black_king: 4,
    }
}

/// The position: the game state plus the cached attack, pin and check boards
/// and the precomputed jump tables.
#[derive(Debug)]
pub struct Chess {
    pub board: Vec<Piece>,
    /// Scratch list filled by `get_legals` for interactive callers.
    pub moves: Vec<u8>,
    pub castling: CastlingRights,
    pub en_passant: u8,
    pub is_white_turn: bool,
    pub white_king: u8,
    pub black_king: u8,
    pub white_attack: Bitboard,
    pub black_attack: Bitboard,
    pub white_pins: Bitboard,
    pub black_pins: Bitboard,
    pub checking_pieces: Vec<u8>,
    pub knight_moves: Vec<Vec<u8>>,
    pub pawn_moves: Vec<Vec<u8>>,
    pub king_moves: Vec<Vec<u8>>,
    pub last_move: (u8, u8),
}

impl Chess {
    /// The game state this position holds.
    pub open spec fn state(self) -> GameCore {
        GameCore {
            board: self.board@,
            castling: self.castling,
            en_passant: self.en_passant,
            white_turn: self.is_white_turn,
            white_king: self.white_king,
            black_king: self.black_king,
        }
    }

    pub open spec fn attack_bb(self, w: bool) -> Bitboard {
        if w {
            self.white_attack
        } else {
            self.black_attack
        }
    }

    pub open spec fn pins_bb(self, w: bool) -> Bitboard {
        if w {
            self.white_pins
        } else {
            self.black_pins
        }
    }

    /// The precomputed jump tables hold exactly the table formulas.
    pub open spec fn tables_ok(self) -> bool {
        &&& self.knight_moves@.len() == 64
        &&& forall|s: int| 0 <= s < 64 ==> #[trigger] self.knight_moves@[s]@.len() == 8
        &&& forall|s: int, j: int|
            0 <= s < 64 && 0 <= j < 8 ==> #[trigger] self.knight_moves@[s]@[j] as int == knight_tbl(
                s,
                j,
            )
        &&& self.king_moves@.len() == 64
        &&& forall|s: int| 0 <= s < 64 ==> #[trigger] self.king_moves@[s]@.len() == 8
        &&& forall|s: int, j: int|
            0 <= s < 64 && 0 <= j < 8 ==> #[trigger] self.king_moves@[s]@[j] as int == king_tbl(
                s,
                j,
            )
        &&& self.pawn_moves@.len() == 128
        &&& forall|s: int| 0 <= s < 128 ==> #[trigger] self.pawn_moves@[s]@.len() == 4
        &&& forall|s: int, j: int|
            0 <= s < 64 && 0 <= j < 4 ==> #[trigger] self.pawn_moves@[s]@[j] as int == wpawn_tbl(
                s,
                j,
            )
        &&& forall|s: int, j: int|
            64 <= s < 128 && 0 <= j < 4 ==> #[trigger] self.pawn_moves@[s]@[j] as int == bpawn_tbl(
                s - 64,
                j,
            )
    }

    /// Well-formed position: a well-formed game state and coherent tables.
    pub open spec fn wf(self) -> bool {
        wf(self.state()) && self.tables_ok()
    }

    /// The cached boards of the side that just moved are up to date with the
    /// current board: its attack set, the pins it lays on the mover-to-be,
    /// and the pieces with which it checks the king to move.  The other
    /// side's boards are one ply stale by design and never consulted.
    /// The cached boards are up to date for `mover` on the current board.
    pub open spec fn caches_fresh_for(self, mover: bool) -> bool {
        &&& forall|i: u64|
            i < 64 ==> (#[trigger] bit_set(self.attack_bb(mover).0, i) <==> attack_mark(
                self.board@,
                mover,
                i as int,
            ))
        &&& forall|i: u64|
            i < 64 ==> (bit_set(self.attack_bb(mover).0, i) <==> #[trigger] attack_mark(
                self.board@,
                mover,
                i as int,
            ))
        &&& forall|i: u64|
            i < 64 ==> (#[trigger] bit_set(self.pins_bb(mover).0, i) <==> pinned_mark(
                self.board@,
                mover,
                i as int,
            ))
        &&& forall|i: u64|
            i < 64 ==> (bit_set(self.pins_bb(mover).0, i) <==> #[trigger] pinned_mark(
                self.board@,
                mover,
                i as int,
            ))
        &&& self.checking_pieces@ == checkers(self.board@, mover)
    }

    pub open spec fn fresh(self) -> bool {
        self.caches_fresh_for(!self.is_white_turn)
    }

    /// Per-square knight jump targets, 64 entries of 8 slots; 64 marks an
    /// off-board slot.
    pub fn precompute_knight() -> (r: Vec<Vec<u8>>)
        ensures
            r@.len() == 64,
            forall|s: int| 0 <= s < 64 ==> #[trigger] r@[s]@.len() == 8,
            forall|s: int, j: int|
                0 <= s < 64 && 0 <= j < 8 ==> #[trigger] r@[s]@[j] as int == knight_tbl(s, j),
    {
        let mut r: Vec<Vec<u8>> = Vec::new();
        for s in 0..64usize
            invariant
                r@.len() == s,
                forall|s2: int| 0 <= s2 < s ==> #[trigger] r@[s2]@.len() == 8,
                forall|s2: int, j: int|
                    0 <= s2 < s && 0 <= j < 8 ==> #[trigger] r@[s2]@[j] as int == knight_tbl(s2, j),
        {
            let mut row: Vec<u8> = Vec::new();
            for j in 0..8usize
                invariant
                    s < 64,
                    row@.len() == j,
                    forall|j2: int| 0 <= j2 < j ==> #[trigger] row@[j2] as int == knight_tbl(
                        s as int,
                        j2,
                    ),
            {
                let off = knight_offset(j);
                row.push(jump_target(s, off.0, off.1));
            }
            r.push(row);
        }
        r
    }

    /// Per-square king step targets, 64 entries of 8 slots.
    pub fn precompute_king() -> (r: Vec<Vec<u8>>)
        ensures
            r@.len() == 64,
            forall|s: int| 0 <= s < 64 ==> #[trigger] r@[s]@.len() == 8,
            forall|s: int, j: int|
                0 <= s < 64 && 0 <= j < 8 ==> #[trigger] r@[s]@[j] as int == king_tbl(s, j),
    {
        let mut r: Vec<Vec<u8>> = Vec::new();
        for s in 0..64usize
            invariant
                r@.len() == s,
                forall|s2: int| 0 <= s2 < s ==> #[trigger] r@[s2]@.len() == 8,
                forall|s2: int, j: int|
                    0 <= s2 < s && 0 <= j < 8 ==> #[trigger] r@[s2]@[j] as int == king_tbl(s2, j),
        {
            let mut row: Vec<u8> = Vec::new();
            for j in 0..8usize
                invariant
                    s < 64,
                    row@.len() == j,
                    forall|j2: int| 0 <= j2 < j ==> #[trigger] row@[j2] as int == king_tbl(
                        s as int,
                        j2,
                    ),
            {
                let off = king_offset(j);
                row.push(jump_target(s, off.0, off.1));
            }
            r.push(row);
        }
        r
    }

    /// Pawn slots per square: double push, single push and the two diagonal
    /// captures; white entries first, black entries at offset 64.
    pub fn precompute_pawn() -> (r: Vec<Vec<u8>>)
        ensures
            r@.len() == 128,
            forall|s: int| 0 <= s < 128 ==> #[trigger] r@[s]@.len() == 4,
            forall|s: int, j: int|
                0 <= s < 64 && 0 <= j < 4 ==> #[trigger] r@[s]@[j] as int == wpawn_tbl(s, j),
            forall|s: int, j: int|
                64 <= s < 128 && 0 <= j < 4 ==> #[trigger] r@[s]@[j] as int == bpawn_tbl(s - 64, j),
    {
        let mut r: Vec<Vec<u8>> = Vec::new();
        for s in 0..64usize
            invariant
                r@.len() == s,
                forall|s2: int| 0 <= s2 < s ==> #[trigger] r@[s2]@.len() == 4,
                forall|s2: int, j: int|
                    0 <= s2 < s && 0 <= j < 4 ==> #[trigger] r@[s2]@[j] as int == wpawn_tbl(s2, j),
        {
            let row_n: usize = s / 8;
            let col_n: usize = s % 8;
            let mut row: Vec<u8> = Vec::new();
            row.push(
                if row_n == 6 {
                    (s - 16) as u8
                } else {
                    64
                },
            );
            row.push(
                if s >= 8 {
                    (s - 8) as u8
                } else {
                    64
                },
            );
            row.push(
                if s >= 8 && col_n > 0 {
                    (s - 9) as u8
                } else {
                    64
                },
            );
            row.push(
                if s >= 8 && col_n < 7 {
                    (s - 7) as u8
                } else {
                    64
                },
            );
            assert(row@[0] as int == wpawn_tbl(s as int, 0));
            assert(row@[1] as int == wpawn_tbl(s as int, 1));
            assert(row@[2] as int == wpawn_tbl(s as int, 2));
            assert(row@[3] as int == wpawn_tbl(s as int, 3));
            r.push(row);
        }
        for s in 0..64usize
            invariant
                r@.len() == 64 + s,
                forall|s2: int| 0 <= s2 < 64 + s ==> #[trigger] r@[s2]@.len() == 4,
                forall|s2: int, j: int|
                    0 <= s2 < 64 && 0 <= j < 4 ==> #[trigger] r@[s2]@[j] as int == wpawn_tbl(s2, j),
                forall|s2: int, j: int|
                    64 <= s2 < 64 + s && 0 <= j < 4 ==> #[trigger] r@[s2]@[j] as int == bpawn_tbl(
                        s2 - 64,
                        j,
                    ),
        {
            let row_n: usize = s / 8;
            let col_n: usize = s % 8;
            let mut row: Vec<u8> = Vec::new();
            row.push(
                if row_n == 1 {
                    (s + 16) as u8
                } else {
                    64
                },
            );
            row.push(
                if row_n <= 6 {
                    (s + 8) as u8
                } else {
                    64
                },
            );
            row.push(
                if row_n <= 6 && col_n > 0 {
                    (s + 7) as u8
                } else {
                    64
                },
            );
            row.push(
                if row_n <= 6 && col_n < 7 {
                    (s + 9) as u8
                } else {
                    64
                },
            );
            assert(row@[0] as int == bpawn_tbl(s as int, 0));
            assert(row@[1] as int == bpawn_tbl(s as int, 1));
            assert(row@[2] as int == bpawn_tbl(s as int, 2));
            assert(row@[3] as int == bpawn_tbl(s as int, 3));
            r.push(row);
        }
        r
    }
}

/// The ray from `o` along `(dr, dc)` has been walked up to but not including
/// step `k` without meeting the enemy king; `cnt` counts the non-empty
/// squares met (at most one, at step `kp`).  These are the walk's running
/// facts, shared by the exit lemmas below.
pub open spec fn walk_pre(
    b: Seq<Piece>,
    w: bool,
    o: int,
    dr: int,
    dc: int,
    k: int,
    cnt: int,
    kp: int,
) -> bool {
    &&& b.len() == 64
    &&& 0 <= o < 64
    &&& -1 <= dr <= 1
    &&& -1 <= dc <= 1
    &&& (dr != 0 || dc != 0)
    &&& 1 <= k <= 8
    &&& 0 <= cnt <= 1
    &&& forall|j: int| 1 <= j < k ==> #[trigger] step_on_board(o, dr, dc, j)
    &&& forall|j: int| 1 <= j < k ==> b[#[trigger] step_sq(o, dr, dc, j)] != enemy_king(w)
    &&& (cnt == 0 ==> forall|j: int|
        1 <= j < k ==> b[#[trigger] step_sq(o, dr, dc, j)] == Piece::Empty)
    &&& (cnt == 1 ==> 1 <= kp < k && b[step_sq(o, dr, dc, kp)] != Piece::Empty && !is_king(
        b[step_sq(o, dr, dc, kp)],
    ) && is_white_p(b[step_sq(o, dr, dc, kp)]) != w && (forall|j: int|
        1 <= j < k && j != kp ==> b[#[trigger] step_sq(o, dr, dc, j)] == Piece::Empty))
}

/// The squares attacked along the walked prefix: each step with a clear path
/// before it.
pub open spec fn walked_attacks(
    b: Seq<Piece>,
    o: int,
    dr: int,
    dc: int,
    k: int,
    t: int,
) -> bool {
    exists|j: int|
        1 <= j < k && t == #[trigger] step_sq(o, dr, dc, j) && path_clear(b, o, dr, dc, j)
}

/// Ray exit: the walk left the board at step `k`.  Nothing new is attacked,
/// no shadow, no check, no pin.
proof fn lemma_walk_off(b: Seq<Piece>, w: bool, o: int, dr: int, dc: int, k: int, cnt: int, kp: int)
    requires
        walk_pre(b, w, o, dr, dc, k, cnt, kp),
        !step_on_board(o, dr, dc, k),
    ensures
        forall|t: int|
            0 <= t < 64 ==> (slider_attack(b, o, dr, dc, t) <==> walked_attacks(b, o, dr, dc, k, t)),
        forall|t: int| 0 <= t < 64 ==> !shadow_dir(b, w, o, dr, dc, t),
        !checker_dir(b, w, o, dr, dc),
        forall|s: int| !pin_dir_mask(b, w, o, dr, dc, s),
{
    assert forall|j: int| k <= j implies !step_on_board(o, dr, dc, j) by {
        crate::geometry::lemma_off_monotone(o, dr, dc, k, j);
    }
    assert forall|t: int|
        0 <= t < 64 implies (slider_attack(b, o, dr, dc, t) <==> walked_attacks(
        b,
        o,
        dr,
        dc,
        k,
        t,
    )) by {
        if slider_attack(b, o, dr, dc, t) {
            let m = choose|m: int|
                1 <= m <= 7 && #[trigger] step_sq(o, dr, dc, m) == t && step_on_board(o, dr, dc, m)
                    && path_clear(b, o, dr, dc, m);
            assert(m < k);
        }
        if walked_attacks(b, o, dr, dc, k, t) {
            let j = choose|j: int|
                1 <= j < k && t == #[trigger] step_sq(o, dr, dc, j) && path_clear(b, o, dr, dc, j);
            assert(1 <= j <= 7 && step_sq(o, dr, dc, j) == t && step_on_board(o, dr, dc, j)
                && path_clear(b, o, dr, dc, j));
        }
    }
    assert forall|t: int| 0 <= t < 64 implies !shadow_dir(b, w, o, dr, dc, t) by {
        if shadow_dir(b, w, o, dr, dc, t) {
            let m = choose|m: int|
                1 <= m <= 6 && #[trigger] step_sq(o, dr, dc, m) == t - dr * 8 - dc && step_on_board(
                    o,
                    dr,
                    dc,
                    m,
                ) && step_on_board(o, dr, dc, m + 1) && path_clear(b, o, dr, dc, m) && b[step_sq(
                    o,
                    dr,
                    dc,
                    m,
                )] == enemy_king(w) && t == step_sq(o, dr, dc, m + 1);
            assert(m < k);
            assert(false);
        }
    }
    assert(!checker_dir(b, w, o, dr, dc)) by {
        if checker_dir(b, w, o, dr, dc) {
            let m = choose|m: int|
                1 <= m <= 7 && #[trigger] step_on_board(o, dr, dc, m) && path_clear(b, o, dr, dc, m)
                    && b[step_sq(o, dr, dc, m)] == enemy_king(w);
            assert(m < k);
            assert(false);
        }
    }
    assert forall|s: int| !pin_dir_mask(b, w, o, dr, dc, s) by {
        if pin_dir_mask(b, w, o, dr, dc, s) {
            let (kp2, kk) = choose|kp2: int, kk: int|
                #[trigger] pin_pattern(b, w, o, dr, dc, kp2, kk) && (s == o || exists|j: int|
                    1 <= j <= kk && s == #[trigger] step_sq(o, dr, dc, j));
            assert(step_on_board(o, dr, dc, kk));
            if kk >= k {
                assert(false);
            } else {
                assert(b[step_sq(o, dr, dc, kk)] == enemy_king(w));
                assert(false);
            }
        }
    }
}

/// Ray exit: the enemy king stands at step `k` with a clear path.  The king's
/// square is attacked, the square behind it is shadowed, the ray checks, and
/// no pin arises.
proof fn lemma_walk_king0(b: Seq<Piece>, w: bool, o: int, dr: int, dc: int, k: int)
    requires
        walk_pre(b, w, o, dr, dc, k, 0, 0),
        step_on_board(o, dr, dc, k),
        b[step_sq(o, dr, dc, k)] == enemy_king(w),
    ensures
        checker_dir(b, w, o, dr, dc),
        forall|t: int|
            0 <= t < 64 ==> (slider_attack(b, o, dr, dc, t) <==> (walked_attacks(b, o, dr, dc, k, t)
                || t == step_sq(o, dr, dc, k))),
        forall|t: int|
            0 <= t < 64 ==> (shadow_dir(b, w, o, dr, dc, t) <==> (step_on_board(o, dr, dc, k + 1)
                && t == step_sq(o, dr, dc, k + 1))),
        forall|s: int| !pin_dir_mask(b, w, o, dr, dc, s),
{
    crate::geometry::lemma_step_bound(o, dr, dc, k);
    assert(path_clear(b, o, dr, dc, k));
    assert(checker_dir(b, w, o, dr, dc)) by {
        let kingpc = b[step_sq(o, dr, dc, k)];
        assert(1 <= k <= 7 && step_on_board(o, dr, dc, k) && path_clear(b, o, dr, dc, k) && kingpc
            == enemy_king(w));
    }
    assert((k + 1) * dr == k * dr + dr) by (nonlinear_arith);
    assert((k + 1) * dc == k * dc + dc) by (nonlinear_arith);
    assert forall|t: int|
        0 <= t < 64 implies (slider_attack(b, o, dr, dc, t) <==> (walked_attacks(b, o, dr, dc, k, t)
        || t == step_sq(o, dr, dc, k))) by {
        if slider_attack(b, o, dr, dc, t) {
            let m = choose|m: int|
                1 <= m <= 7 && #[trigger] step_sq(o, dr, dc, m) == t && step_on_board(o, dr, dc, m)
                    && path_clear(b, o, dr, dc, m);
            if m > k {
                assert(b[step_sq(o, dr, dc, k)] == Piece::Empty);
                assert(false);
            }
        }
        if walked_attacks(b, o, dr, dc, k, t) {
            let j = choose|j: int|
                1 <= j < k && t == #[trigger] step_sq(o, dr, dc, j) && path_clear(b, o, dr, dc, j);
            assert(1 <= j <= 7 && step_sq(o, dr, dc, j) == t && step_on_board(o, dr, dc, j)
                && path_clear(b, o, dr, dc, j));
        }
        if t == step_sq(o, dr, dc, k) {
            assert(1 <= k <= 7 && step_sq(o, dr, dc, k) == t && step_on_board(o, dr, dc, k)
                && path_clear(b, o, dr, dc, k));
        }
    }
    assert forall|t: int|
        0 <= t < 64 implies (shadow_dir(b, w, o, dr, dc, t) <==> (step_on_board(o, dr, dc, k + 1)
        && t == step_sq(o, dr, dc, k + 1))) by {
        if shadow_dir(b, w, o, dr, dc, t) {
            let m = choose|m: int|
                1 <= m <= 6 && #[trigger] step_sq(o, dr, dc, m) == t - dr * 8 - dc && step_on_board(
                    o,
                    dr,
                    dc,
                    m,
                ) && step_on_board(o, dr, dc, m + 1) && path_clear(b, o, dr, dc, m) && b[step_sq(
                    o,
                    dr,
                    dc,
                    m,
                )] == enemy_king(w) && t == step_sq(o, dr, dc, m + 1);
            if m < k {
                assert(false);
            } else if m > k {
                assert(b[step_sq(o, dr, dc, k)] == Piece::Empty);
                assert(false);
            }
        }
        if step_on_board(o, dr, dc, k + 1) && t == step_sq(o, dr, dc, k + 1) {
            crate::geometry::lemma_step_bound(o, dr, dc, k + 1);
            assert(step_sq(o, dr, dc, k + 1) == step_sq(o, dr, dc, k) + dr * 8 + dc);
            assert(1 <= k <= 6 && step_sq(o, dr, dc, k) == t - dr * 8 - dc && step_on_board(
                o,
                dr,
                dc,
                k,
            ) && step_on_board(o, dr, dc, k + 1) && path_clear(b, o, dr, dc, k) && b[step_sq(
                o,
                dr,
                dc,
                k,
            )] == enemy_king(w) && t == step_sq(o, dr, dc, k + 1));
        }
    }
    assert forall|s: int| !pin_dir_mask(b, w, o, dr, dc, s) by {
        if pin_dir_mask(b, w, o, dr, dc, s) {
            let (kp2, kk) = choose|kp2: int, kk: int|
                #[trigger] pin_pattern(b, w, o, dr, dc, kp2, kk) && (s == o || exists|j: int|
                    1 <= j <= kk && s == #[trigger] step_sq(o, dr, dc, j));
            if kk < k {
                assert(b[step_sq(o, dr, dc, kk)] == enemy_king(w));
                assert(false);
            } else if kk == k {
                assert(b[step_sq(o, dr, dc, kp2)] == Piece::Empty);
                assert(false);
            } else {
                assert(kp2 == k || b[step_sq(o, dr, dc, k)] == Piece::Empty);
                assert(false);
            }
        }
    }
}

/// Ray exit: the enemy king stands at step `k` behind a single shield at step
/// `kp`: the whole ray up to the king is a pin mask; nothing is attacked past
/// the shield and the ray does not check.
proof fn lemma_walk_king1(b: Seq<Piece>, w: bool, o: int, dr: int, dc: int, k: int, kp: int)
    requires
        walk_pre(b, w, o, dr, dc, k, 1, kp),
        step_on_board(o, dr, dc, k),
        b[step_sq(o, dr, dc, k)] == enemy_king(w),
    ensures
        !checker_dir(b, w, o, dr, dc),
        forall|t: int|
            0 <= t < 64 ==> (slider_attack(b, o, dr, dc, t) <==> walked_attacks(b, o, dr, dc, k, t)),
        forall|t: int| 0 <= t < 64 ==> !shadow_dir(b, w, o, dr, dc, t),
        forall|s: int|
            #[trigger] pin_dir_mask(b, w, o, dr, dc, s) <==> (s == o || exists|j: int|
                1 <= j <= k && s == #[trigger] step_sq(o, dr, dc, j)),
{
    crate::geometry::lemma_step_bound(o, dr, dc, k);
    assert(pin_pattern(b, w, o, dr, dc, kp, k)) by {
        assert(forall|j: int| 1 <= j <= k ==> #[trigger] step_on_board(o, dr, dc, j));
    }
    assert forall|t: int|
        0 <= t < 64 implies (slider_attack(b, o, dr, dc, t) <==> walked_attacks(
        b,
        o,
        dr,
        dc,
        k,
        t,
    )) by {
        if slider_attack(b, o, dr, dc, t) {
            let m = choose|m: int|
                1 <= m <= 7 && #[trigger] step_sq(o, dr, dc, m) == t && step_on_board(o, dr, dc, m)
                    && path_clear(b, o, dr, dc, m);
            if m >= k {
                assert(b[step_sq(o, dr, dc, kp)] == Piece::Empty);
                assert(false);
            }
        }
        if walked_attacks(b, o, dr, dc, k, t) {
            let j = choose|j: int|
                1 <= j < k && t == #[trigger] step_sq(o, dr, dc, j) && path_clear(b, o, dr, dc, j);
            assert(1 <= j <= 7 && step_sq(o, dr, dc, j) == t && step_on_board(o, dr, dc, j)
                && path_clear(b, o, dr, dc, j));
        }
    }
    assert forall|t: int| 0 <= t < 64 implies !shadow_dir(b, w, o, dr, dc, t) by {
        if shadow_dir(b, w, o, dr, dc, t) {
            let m = choose|m: int|
                1 <= m <= 6 && #[trigger] step_sq(o, dr, dc, m) == t - dr * 8 - dc && step_on_board(
                    o,
                    dr,
                    dc,
                    m,
                ) && step_on_board(o, dr, dc, m + 1) && path_clear(b, o, dr, dc, m) && b[step_sq(
                    o,
                    dr,
                    dc,
                    m,
                )] == enemy_king(w) && t == step_sq(o, dr, dc, m + 1);
            if m < k {
                assert(false);
            } else {
                assert(b[step_sq(o, dr, dc, kp)] == Piece::Empty);
                assert(false);
            }
        }
    }
    assert(!checker_dir(b, w, o, dr, dc)) by {
        if checker_dir(b, w, o, dr, dc) {
            let m = choose|m: int|
                1 <= m <= 7 && #[trigger] step_on_board(o, dr, dc, m) && path_clear(b, o, dr, dc, m)
                    && b[step_sq(o, dr, dc, m)] == enemy_king(w);
            if m < k {
                assert(false);
            } else {
                assert(b[step_sq(o, dr, dc, kp)] == Piece::Empty);
                assert(false);
            }
        }
    }
    assert forall|s: int|
        #[trigger] pin_dir_mask(b, w, o, dr, dc, s) <==> (s == o || exists|j: int|
            1 <= j <= k && s == #[trigger] step_sq(o, dr, dc, j)) by {
        if pin_dir_mask(b, w, o, dr, dc, s) {
            let (kp2, kk) = choose|kp2: int, kk: int|
                #[trigger] pin_pattern(b, w, o, dr, dc, kp2, kk) && (s == o || exists|j: int|
                    1 <= j <= kk && s == #[trigger] step_sq(o, dr, dc, j));
            assert(kk == k) by {
                if kk < k {
                    assert(b[step_sq(o, dr, dc, kk)] == enemy_king(w));
                    assert(false);
                } else if kk > k {
                    assert(kp2 == k || b[step_sq(o, dr, dc, k)] == Piece::Empty);
                    assert(false);
                }
            }
        }
        if s == o || exists|j: int| 1 <= j <= k && s == #[trigger] step_sq(o, dr, dc, j) {
            assert(pin_dir_mask(b, w, o, dr, dc, s)) by {
                assert(pin_pattern(b, w, o, dr, dc, kp, k) && (s == o || exists|j: int|
                    1 <= j <= k && s == #[trigger] step_sq(o, dr, dc, j)));
            }
        }
    }
}

/// Ray exit: step `k` holds a piece that ends the ray without checking: a
/// friendly piece, or a second enemy piece behind the shield.  Its square is
/// attacked only when the path to it was clear.
proof fn lemma_walk_block(b: Seq<Piece>, w: bool, o: int, dr: int, dc: int, k: int, cnt: int, kp: int)
    requires
        walk_pre(b, w, o, dr, dc, k, cnt, kp),
        step_on_board(o, dr, dc, k),
        b[step_sq(o, dr, dc, k)] != Piece::Empty,
        b[step_sq(o, dr, dc, k)] != enemy_king(w),
        is_white_p(b[step_sq(o, dr, dc, k)]) == w || cnt == 1,
    ensures
        !checker_dir(b, w, o, dr, dc),
        forall|t: int|
            0 <= t < 64 ==> (slider_attack(b, o, dr, dc, t) <==> (walked_attacks(b, o, dr, dc, k, t)
                || (cnt == 0 && t == step_sq(o, dr, dc, k)))),
        forall|t: int| 0 <= t < 64 ==> !shadow_dir(b, w, o, dr, dc, t),
        forall|s: int| !pin_dir_mask(b, w, o, dr, dc, s),
{
    crate::geometry::lemma_step_bound(o, dr, dc, k);
    assert forall|t: int|
        0 <= t < 64 implies (slider_attack(b, o, dr, dc, t) <==> (walked_attacks(b, o, dr, dc, k, t)
        || (cnt == 0 && t == step_sq(o, dr, dc, k)))) by {
        if slider_attack(b, o, dr, dc, t) {
            let m = choose|m: int|
                1 <= m <= 7 && #[trigger] step_sq(o, dr, dc, m) == t && step_on_board(o, dr, dc, m)
                    && path_clear(b, o, dr, dc, m);
            if m > k {
                assert(b[step_sq(o, dr, dc, k)] == Piece::Empty);
                assert(false);
            } else if m == k {
                if cnt == 1 {
                    assert(b[step_sq(o, dr, dc, kp)] == Piece::Empty);
                    assert(false);
                }
            }
        }
        if walked_attacks(b, o, dr, dc, k, t) {
            let j = choose|j: int|
                1 <= j < k && t == #[trigger] step_sq(o, dr, dc, j) && path_clear(b, o, dr, dc, j);
            assert(1 <= j <= 7 && step_sq(o, dr, dc, j) == t && step_on_board(o, dr, dc, j)
                && path_clear(b, o, dr, dc, j));
        }
        if cnt == 0 && t == step_sq(o, dr, dc, k) {
            assert(path_clear(b, o, dr, dc, k));
            assert(1 <= k <= 7 && step_sq(o, dr, dc, k) == t && step_on_board(o, dr, dc, k)
                && path_clear(b, o, dr, dc, k));
        }
    }
    assert forall|t: int| 0 <= t < 64 implies !shadow_dir(b, w, o, dr, dc, t) by {
        if shadow_dir(b, w, o, dr, dc, t) {
            let m = choose|m: int|
                1 <= m <= 6 && #[trigger] step_sq(o, dr, dc, m) == t - dr * 8 - dc && step_on_board(
                    o,
                    dr,
                    dc,
                    m,
                ) && step_on_board(o, dr, dc, m + 1) && path_clear(b, o, dr, dc, m) && b[step_sq(
                    o,
                    dr,
                    dc,
                    m,
                )] == enemy_king(w) && t == step_sq(o, dr, dc, m + 1);
            if m < k {
                assert(false);
            } else if m == k {
                assert(false);
            } else {
                assert(b[step_sq(o, dr, dc, k)] == Piece::Empty);
                assert(false);
            }
        }
    }
    assert(!checker_dir(b, w, o, dr, dc)) by {
        if checker_dir(b, w, o, dr, dc) {
            let m = choose|m: int|
                1 <= m <= 7 && #[trigger] step_on_board(o, dr, dc, m) && path_clear(b, o, dr, dc, m)
                    && b[step_sq(o, dr, dc, m)] == enemy_king(w);
            if m <= k {
                assert(false);
            } else {
                assert(b[step_sq(o, dr, dc, k)] == Piece::Empty);
                assert(false);
            }
        }
    }
    assert forall|s: int| !pin_dir_mask(b, w, o, dr, dc, s) by {
        if pin_dir_mask(b, w, o, dr, dc, s) {
            let (kp2, kk) = choose|kp2: int, kk: int|
                #[trigger] pin_pattern(b, w, o, dr, dc, kp2, kk) && (s == o || exists|j: int|
                    1 <= j <= kk && s == #[trigger] step_sq(o, dr, dc, j));
            if kk < k {
                assert(b[step_sq(o, dr, dc, kk)] == enemy_king(w));
                assert(false);
            } else if kk == k {
                assert(b[step_sq(o, dr, dc, k)] == enemy_king(w));
                assert(false);
            } else {
                assert(kp2 == k || b[step_sq(o, dr, dc, k)] == Piece::Empty);
                assert(is_white_p(b[step_sq(o, dr, dc, kp2)]) != w && !is_king(
                    b[step_sq(o, dr, dc, kp2)],
                ));
                if cnt == 1 {
                    assert(kp != kp2);
                    assert(b[step_sq(o, dr, dc, kp)] == Piece::Empty);
                }
                assert(false);
            }
        }
    }
}

/// Walk one slider ray from `index` for side `w`: push every attacked square
/// of this direction (including the retreat shadow behind a checked enemy
/// king) onto `moves`, record a pin mask into `pins` when exactly one enemy
/// piece shields its king, and report whether this ray gives check.
#[verifier::rlimit(100)]
fn walk_attack_dir(
    board: &Vec<Piece>,
    w: bool,
    index: u8,
    dr: i32,
    dc: i32,
    moves: &mut Vec<u8>,
    pins: &mut Bitboard,
) -> (chk: bool)
    requires
        board@.len() == 64,
        index < 64,
        -1 <= dr <= 1,
        -1 <= dc <= 1,
        dr != 0 || dc != 0,
        forall|j: int| 0 <= j < old(moves)@.len() ==> old(moves)@[j] < 64,
    ensures
        forall|j: int| 0 <= j < final(moves)@.len() ==> final(moves)@[j] < 64,
        forall|t: u8|
            t < 64 ==> (#[trigger] final(moves)@.contains(t) <==> old(moves)@.contains(t)
                || slider_attack(board@, index as int, dr as int, dc as int, t as int)
                || shadow_dir(board@, w, index as int, dr as int, dc as int, t as int)),
        forall|i: u64|
            i < 64 ==> (#[trigger] bit_set(final(pins).0, i) <==> bit_set(old(pins).0, i)
                || pin_dir_mask(board@, w, index as int, dr as int, dc as int, i as int)),
        chk == checker_dir(board@, w, index as int, dr as int, dc as int),
{
    let ghost bi = board@;
    let ghost oi = index as int;
    let ghost dri = dr as int;
    let ghost dci = dc as int;
    let ghost moves0 = moves@;
    let ghost pins0 = pins.0;
    let or: i32 = (index / 8) as i32;
    let oc: i32 = (index % 8) as i32;
    let ek: Piece = if w {
        Piece::Bking
    } else {
        Piece::Wking
    };
    let mut mask = Bitboard::empty();
    mask.set_bit(index);
    let mut k: u32 = 1;
    let mut count: u32 = 0;
    let mut chk: bool = false;
    let ghost mut kp_g: int = 0;
    loop
        invariant_except_break
            chk == false,
            pins.0 == pins0,
            count == 0 ==> kp_g == 0,
            walk_pre(bi, w, oi, dri, dci, k as int, count as int, kp_g),
            forall|t: u8|
                t < 64 ==> (#[trigger] moves@.contains(t) <==> moves0.contains(t)
                    || walked_attacks(bi, oi, dri, dci, k as int, t as int)),
            forall|i: u64|
                i < 64 ==> (#[trigger] bit_set(mask.0, i) <==> i as int == oi || (exists|j: int|
                    1 <= j < k && i as int == #[trigger] step_sq(oi, dri, dci, j))),
        invariant
            board@ == bi,
            board@.len() == 64,
            index < 64,
            oi == index as int,
            dri == dr as int,
            dci == dc as int,
            -1 <= dr <= 1,
            -1 <= dc <= 1,
            dr != 0 || dc != 0,
            1 <= k <= 8,
            count <= 1,
            or == row_of(oi),
            oc == col_of(oi),
            ek == enemy_king(w),
            moves0 == old(moves)@,
            pins0 == old(pins).0,
            forall|j: int| 0 <= j < moves@.len() ==> moves@[j] < 64,
        ensures
            forall|t: u8|
                t < 64 ==> (#[trigger] moves@.contains(t) <==> moves0.contains(t) || slider_attack(
                    bi,
                    oi,
                    dri,
                    dci,
                    t as int,
                ) || shadow_dir(bi, w, oi, dri, dci, t as int)),
            forall|i: u64|
                i < 64 ==> (#[trigger] bit_set(pins.0, i) <==> bit_set(pins0, i) || pin_dir_mask(
                    bi,
                    w,
                    oi,
                    dri,
                    dci,
                    i as int,
                )),
            chk == checker_dir(bi, w, oi, dri, dci),
        decreases 9 - k,
    {
        proof {
            assert(-8 <= (k as int) * (dr as int) <= 8) by (nonlinear_arith)
                requires
                    1 <= k <= 8,
                    -1 <= dr as int <= 1,
            ;
            assert(-8 <= (k as int) * (dc as int) <= 8) by (nonlinear_arith)
                requires
                    1 <= k <= 8,
                    -1 <= dc as int <= 1,
            ;
        }
        let cr: i32 = or + (k as i32) * dr;
        let cc: i32 = oc + (k as i32) * dc;
        proof {
            assert(cr == crate::geometry::step_row(oi, dri, k as int));
            assert(cc == crate::geometry::step_col(oi, dci, k as int));
        }
        if !(0 <= cr && cr < 8 && 0 <= cc && cc < 8) {
            proof {
                assert(!step_on_board(oi, dri, dci, k as int));
                lemma_walk_off(bi, w, oi, dri, dci, k as int, count as int, kp_g);
            }
            break;
        }
        let sqi: u8 = (cr * 8 + cc) as u8;
        proof {
            assert(step_on_board(oi, dri, dci, k as int));
            assert(sqi as int == step_sq(oi, dri, dci, k as int));
            crate::geometry::lemma_step_bound(oi, dri, dci, k as int);
        }
        mask.set_bit(sqi);
        proof {
            assert forall|i: u64| i < 64 implies (#[trigger] bit_set(mask.0, i) <==> i as int == oi
                || (exists|j: int|
                1 <= j <= k && i as int == #[trigger] step_sq(oi, dri, dci, j))) by {
                if i == sqi as u64 {
                    assert(i as int == step_sq(oi, dri, dci, k as int));
                }
            }
        }
        let p: Piece = board[sqi as usize];
        if p == Piece::Empty {
            if count == 0 {
                let ghost pre = moves@;
                moves.push(sqi);
                proof {
                    lemma_push_contains(pre, sqi);
                    assert(path_clear(bi, oi, dri, dci, k as int));
                }
            }
            proof {
                assert forall|t: u8| t < 64 implies (#[trigger] moves@.contains(t)
                    <==> moves0.contains(t) || walked_attacks(bi, oi, dri, dci, k as int + 1, t as int))
                    by {
                    if count == 0 && t == sqi {
                        assert(t as int == step_sq(oi, dri, dci, k as int) && path_clear(
                            bi,
                            oi,
                            dri,
                            dci,
                            k as int,
                        ));
                    }
                    if walked_attacks(bi, oi, dri, dci, k as int + 1, t as int) {
                        let j = choose|j: int|
                            1 <= j < k + 1 && t as int == #[trigger] step_sq(oi, dri, dci, j)
                                && path_clear(bi, oi, dri, dci, j);
                        if j == k as int {
                            assert(count == 0) by {
                                if count == 1 {
                                    assert(bi[step_sq(oi, dri, dci, kp_g)] == Piece::Empty);
                                }
                            }
                            assert(t == sqi);
                        }
                    }
                }
            }
            k = k + 1;
        } else if p == ek {
            if count == 0 {
                let ghost pre = moves@;
                moves.push(sqi);
                proof {
                    lemma_push_contains(pre, sqi);
                }
                chk = true;
                let nr: i32 = cr + dr;
                let nc: i32 = cc + dc;
                let on2: bool = 0 <= nr && nr < 8 && 0 <= nc && nc < 8;
                proof {
                    assert((k as int + 1) * dri == (k as int) * dri + dri) by (nonlinear_arith);
                    assert((k as int + 1) * dci == (k as int) * dci + dci) by (nonlinear_arith);
                    assert(nr == crate::geometry::step_row(oi, dri, k as int + 1));
                    assert(nc == crate::geometry::step_col(oi, dci, k as int + 1));
                    assert(on2 == step_on_board(oi, dri, dci, k as int + 1));
                }
                if on2 {
                    let ov: u8 = (nr * 8 + nc) as u8;
                    proof {
                        assert(ov as int == step_sq(oi, dri, dci, k as int + 1));
                    }
                    let ghost pre2 = moves@;
                    moves.push(ov);
                    proof {
                        lemma_push_contains(pre2, ov);
                    }
                }
                proof {
                    lemma_walk_king0(bi, w, oi, dri, dci, k as int);
                    assert forall|t: u8| t < 64 implies (#[trigger] moves@.contains(t)
                        <==> moves0.contains(t) || slider_attack(bi, oi, dri, dci, t as int)
                        || shadow_dir(bi, w, oi, dri, dci, t as int)) by {
                        assert(slider_attack(bi, oi, dri, dci, t as int) <==> (walked_attacks(
                            bi,
                            oi,
                            dri,
                            dci,
                            k as int,
                            t as int,
                        ) || t as int == step_sq(oi, dri, dci, k as int)));
                        assert(shadow_dir(bi, w, oi, dri, dci, t as int) <==> (step_on_board(
                            oi,
                            dri,
                            dci,
                            k as int + 1,
                        ) && t as int == step_sq(oi, dri, dci, k as int + 1)));
                    }
                }
            } else {
                proof {
                    lemma_walk_king1(bi, w, oi, dri, dci, k as int, kp_g);
                    lemma_bits_or(pins.0, mask.0);
                    assert forall|i: u64| i < 64 implies (bit_set(pins.0 | mask.0, i) <==> bit_set(
                        pins0,
                        i,
                    ) || pin_dir_mask(bi, w, oi, dri, dci, i as int)) by {
                        assert(pin_dir_mask(bi, w, oi, dri, dci, i as int) <==> (i as int == oi
                            || exists|j: int|
                            1 <= j <= k && i as int == #[trigger] step_sq(oi, dri, dci, j)));
                    }
                    assert forall|t: u8| t < 64 implies (#[trigger] moves@.contains(t)
                        <==> moves0.contains(t) || slider_attack(bi, oi, dri, dci, t as int)
                        || shadow_dir(bi, w, oi, dri, dci, t as int)) by {
                        assert(slider_attack(bi, oi, dri, dci, t as int) <==> walked_attacks(
                            bi,
                            oi,
                            dri,
                            dci,
                            k as int,
                            t as int,
                        ));
                    }
                }
                pins.0 = pins.0 | mask.0;
            }
            break;
        } else if p.is_white() != w {
            if count == 0 {
                count = 1;
                proof {
                    kp_g = k as int;
                }
                let ghost pre = moves@;
                moves.push(sqi);
                proof {
                    lemma_push_contains(pre, sqi);
                    assert(path_clear(bi, oi, dri, dci, k as int));
                    assert forall|t: u8| t < 64 implies (#[trigger] moves@.contains(t)
                        <==> moves0.contains(t) || walked_attacks(
                        bi,
                        oi,
                        dri,
                        dci,
                        k as int + 1,
                        t as int,
                    )) by {
                        if t == sqi {
                            assert(t as int == step_sq(oi, dri, dci, k as int) && path_clear(
                                bi,
                                oi,
                                dri,
                                dci,
                                k as int,
                            ));
                        }
                        if walked_attacks(bi, oi, dri, dci, k as int + 1, t as int) {
                            let j = choose|j: int|
                                1 <= j < k + 1 && t as int == #[trigger] step_sq(oi, dri, dci, j)
                                    && path_clear(bi, oi, dri, dci, j);
                            if j == k as int {
                                assert(t == sqi);
                            }
                        }
                    }
                }
                k = k + 1;
            } else {
                proof {
                    lemma_walk_block(bi, w, oi, dri, dci, k as int, count as int, kp_g);
                    assert forall|t: u8| t < 64 implies (#[trigger] moves@.contains(t)
                        <==> moves0.contains(t) || slider_attack(bi, oi, dri, dci, t as int)
                        || shadow_dir(bi, w, oi, dri, dci, t as int)) by {
                        assert(slider_attack(bi, oi, dri, dci, t as int) <==> walked_attacks(
                            bi,
                            oi,
                            dri,
                            dci,
                            k as int,
                            t as int,
                        ));
                    }
                }
                break;
            }
        } else {
            let ghost movedp = count == 0;
            if count == 0 {
                let ghost pre = moves@;
                moves.push(sqi);
                proof {
                    lemma_push_contains(pre, sqi);
                    assert(path_clear(bi, oi, dri, dci, k as int));
                }
            }
            proof {
                assert(bi[step_sq(oi, dri, dci, k as int)] != enemy_king(w));
                assert(is_white_p(bi[step_sq(oi, dri, dci, k as int)]) == w);
                lemma_walk_block(bi, w, oi, dri, dci, k as int, count as int, kp_g);
                assert forall|t: u8| t < 64 implies (#[trigger] moves@.contains(t)
                    <==> moves0.contains(t) || slider_attack(bi, oi, dri, dci, t as int)
                    || shadow_dir(bi, w, oi, dri, dci, t as int)) by {
                    assert(slider_attack(bi, oi, dri, dci, t as int) <==> (walked_attacks(
                        bi,
                        oi,
                        dri,
                        dci,
                        k as int,
                        t as int,
                    ) || (count == 0 && t as int == step_sq(oi, dri, dci, k as int))));
                    if count == 0 && t == sqi {
                        assert(moves@.contains(t));
                    }
                }
            }
            break;
        }
    }
    chk
}


/// Concatenation contains exactly the elements of both parts.
pub proof fn lemma_add_contains<T>(a: Seq<T>, b: Seq<T>)
    ensures
        forall|y: T| #[trigger] (a + b).contains(y) <==> a.contains(y) || b.contains(y),
{
    assert forall|y: T| #[trigger] (a + b).contains(y) <==> a.contains(y) || b.contains(y) by {
        if (a + b).contains(y) {
            let i = choose|i: int| 0 <= i < (a + b).len() && (a + b)[i] == y;
            if i < a.len() {
                assert(a[i] == y);
            } else {
                assert(b[i - a.len()] == y);
            }
        }
        if a.contains(y) {
            let i = choose|i: int| 0 <= i < a.len() && a[i] == y;
            assert((a + b)[i] == y);
        }
        if b.contains(y) {
            let i = choose|i: int| 0 <= i < b.len() && b[i] == y;
            assert((a + b)[a.len() + i] == y);
        }
    }
}

/// Everything but the attack, pin and check caches is unchanged.
pub open spec fn same_core_fields(pre: Chess, post: Chess) -> bool {
    &&& post.board@ == pre.board@
    &&& post.moves@ == pre.moves@
    &&& post.castling == pre.castling
    &&& post.en_passant == pre.en_passant
    &&& post.is_white_turn == pre.is_white_turn
    &&& post.white_king == pre.white_king
    &&& post.black_king == pre.black_king
    &&& post.knight_moves@ == pre.knight_moves@
    &&& post.pawn_moves@ == pre.pawn_moves@
    &&& post.king_moves@ == pre.king_moves@
    &&& post.last_move == pre.last_move
}

impl Chess {
    /// Shared body of the slider attack generators: walk the rook and/or
    /// bishop rays of the piece on `index` for the side to move, accumulate
    /// its pin masks, and append it to the checking pieces when some ray
    /// checks.
    fn gen_attacks_slider(&mut self, index: u8, rk: bool, bp: bool) -> (r: Vec<u8>)
        requires
            old(self).board@.len() == 64,
            index < 64,
            rk || bp,
        ensures
            same_core_fields(*old(self), *final(self)),
            final(self).white_attack == old(self).white_attack,
            final(self).black_attack == old(self).black_attack,
            final(self).pins_bb(!old(self).is_white_turn) == old(self).pins_bb(
                !old(self).is_white_turn,
            ),
            forall|j: int| 0 <= j < r@.len() ==> r@[j] < 64,
            forall|t: u8|
                t < 64 ==> (#[trigger] r@.contains(t) <==> (rk && (rook_rays(
                    old(self).board@,
                    index as int,
                    t as int,
                ) || rook_shadows(old(self).board@, old(self).is_white_turn, index as int, t as int)))
                    || (bp && (bishop_rays(old(self).board@, index as int, t as int)
                    || bishop_shadows(
                    old(self).board@,
                    old(self).is_white_turn,
                    index as int,
                    t as int,
                )))),
            forall|i: u64|
                i < 64 ==> (#[trigger] bit_set(
                    final(self).pins_bb(old(self).is_white_turn).0,
                    i,
                ) <==> bit_set(old(self).pins_bb(old(self).is_white_turn).0, i) || (rk
                    && rook_pin_masks(
                    old(self).board@,
                    old(self).is_white_turn,
                    index as int,
                    i as int,
                )) || (bp && bishop_pin_masks(
                    old(self).board@,
                    old(self).is_white_turn,
                    index as int,
                    i as int,
                ))),
            final(self).checking_pieces@ == (if (rk && rook_checks(
                old(self).board@,
                old(self).is_white_turn,
                index as int,
            )) || (bp && bishop_checks(old(self).board@, old(self).is_white_turn, index as int)) {
                old(self).checking_pieces@.push(index)
            } else {
                old(self).checking_pieces@
            }),
    {
        let w = self.is_white_turn;
        let mut r: Vec<u8> = Vec::new();
        let mut pins: Bitboard = if w {
            self.white_pins
        } else {
            self.black_pins
        };
        let mut chk: bool = false;
        if rk {
            let c1 = walk_attack_dir(&self.board, w, index, 0, 1, &mut r, &mut pins);
            let c2 = walk_attack_dir(&self.board, w, index, 0, -1, &mut r, &mut pins);
            let c3 = walk_attack_dir(&self.board, w, index, -1, 0, &mut r, &mut pins);
            let c4 = walk_attack_dir(&self.board, w, index, 1, 0, &mut r, &mut pins);
            chk = c1 || c2 || c3 || c4;
        }
        if bp {
            let c5 = walk_attack_dir(&self.board, w, index, 1, 1, &mut r, &mut pins);
            let c6 = walk_attack_dir(&self.board, w, index, 1, -1, &mut r, &mut pins);
            let c7 = walk_attack_dir(&self.board, w, index, -1, 1, &mut r, &mut pins);
            let c8 = walk_attack_dir(&self.board, w, index, -1, -1, &mut r, &mut pins);
            chk = chk || c5 || c6 || c7 || c8;
        }
        if w {
            self.white_pins = pins;
        } else {
            self.black_pins = pins;
        }
        if chk {
            self.checking_pieces.push(index);
        }
        r
    }

    /// Attack squares, pins and checks of the rook rays from `index`, for the
    /// side to move.
    pub fn gen_attacks_rook(&mut self, index: u8) -> (r: Vec<u8>)
        requires
            old(self).board@.len() == 64,
            index < 64,
        ensures
            same_core_fields(*old(self), *final(self)),
            final(self).white_attack == old(self).white_attack,
            final(self).black_attack == old(self).black_attack,
            final(self).pins_bb(!old(self).is_white_turn) == old(self).pins_bb(
                !old(self).is_white_turn,
            ),
            forall|j: int| 0 <= j < r@.len() ==> r@[j] < 64,
            forall|t: u8|
                t < 64 ==> (#[trigger] r@.contains(t) <==> rook_rays(
                    old(self).board@,
                    index as int,
                    t as int,
                ) || rook_shadows(old(self).board@, old(self).is_white_turn, index as int, t as int)),
            forall|i: u64|
                i < 64 ==> (#[trigger] bit_set(
                    final(self).pins_bb(old(self).is_white_turn).0,
                    i,
                ) <==> bit_set(old(self).pins_bb(old(self).is_white_turn).0, i) || rook_pin_masks(
                    old(self).board@,
                    old(self).is_white_turn,
                    index as int,
                    i as int,
                )),
            final(self).checking_pieces@ == (if rook_checks(
                old(self).board@,
                old(self).is_white_turn,
                index as int,
            ) {
                old(self).checking_pieces@.push(index)
            } else {
                old(self).checking_pieces@
            }),
    {
        self.gen_attacks_slider(index, true, false)
    }

    /// Attack squares, pins and checks of the bishop rays from `index`, for
    /// the side to move.
    pub fn gen_attacks_bishop(&mut self, index: u8) -> (r: Vec<u8>)
        requires
            old(self).board@.len() == 64,
            index < 64,
        ensures
            same_core_fields(*old(self), *final(self)),
            final(self).white_attack == old(self).white_attack,
            final(self).black_attack == old(self).black_attack,
            final(self).pins_bb(!old(self).is_white_turn) == old(self).pins_bb(
                !old(self).is_white_turn,
            ),
            forall|j: int| 0 <= j < r@.len() ==> r@[j] < 64,
            forall|t: u8|
                t < 64 ==> (#[trigger] r@.contains(t) <==> bishop_rays(
                    old(self).board@,
                    index as int,
                    t as int,
                ) || bishop_shadows(
                    old(self).board@,
                    old(self).is_white_turn,
                    index as int,
                    t as int,
                )),
            forall|i: u64|
                i < 64 ==> (#[trigger] bit_set(
                    final(self).pins_bb(old(self).is_white_turn).0,
                    i,
                ) <==> bit_set(old(self).pins_bb(old(self).is_white_turn).0, i) || bishop_pin_masks(
                    old(self).board@,
                    old(self).is_white_turn,
                    index as int,
                    i as int,
                )),
            final(self).checking_pieces@ == (if bishop_checks(
                old(self).board@,
                old(self).is_white_turn,
                index as int,
            ) {
                old(self).checking_pieces@.push(index)
            } else {
                old(self).checking_pieces@
            }),
    {
        self.gen_attacks_slider(index, false, true)
    }

    /// Attack squares of the knight on `index`; appends `index` to the
    /// checking pieces when it attacks the enemy king.
    pub fn gen_attacks_knight(&mut self, index: usize) -> (r: Vec<u8>)
        requires
            old(self).board@.len() == 64,
            old(self).tables_ok(),
            index < 64,
        ensures
            same_core_fields(*old(self), *final(self)),
            final(self).white_attack == old(self).white_attack,
            final(self).black_attack == old(self).black_attack,
            final(self).white_pins == old(self).white_pins,
            final(self).black_pins == old(self).black_pins,
            forall|j: int| 0 <= j < r@.len() ==> r@[j] < 64,
            forall|t: u8| t < 64 ==> (#[trigger] r@.contains(t) <==> knight_hits(index as int, t as int)),
            final(self).checking_pieces@ == (if exists|t: int|
                #[trigger] knight_hits(index as int, t) && 0 <= t < 64 && old(self).board@[t]
                    == enemy_king(is_white_p(old(self).board@[index as int])) {
                old(self).checking_pieces@.push(index as u8)
            } else {
                old(self).checking_pieces@
            }),
    {
        let ghost bi = self.board@;
        let ghost oi = index as int;
        let w = self.board[index].is_white();
        let ek: Piece = if w {
            Piece::Bking
        } else {
            Piece::Wking
        };
        let mut r: Vec<u8> = Vec::new();
        let mut chk: bool = false;
        for j in 0..8usize
            invariant
                self == old(self),
                bi == self.board@,
                bi.len() == 64,
                self.tables_ok(),
                oi == index as int,
                index < 64,
                w == is_white_p(bi[oi]),
                ek == enemy_king(w),
                forall|j2: int| 0 <= j2 < r@.len() ==> r@[j2] < 64,
                forall|t: u8|
                    t < 64 ==> (#[trigger] r@.contains(t) <==> exists|j2: int|
                        0 <= j2 < j && #[trigger] knight_tbl(oi, j2) == t as int && t != 64),
                chk <==> exists|j2: int|
                    0 <= j2 < j && #[trigger] knight_tbl(oi, j2) != 64 && bi[knight_tbl(oi, j2)]
                        == ek,
        {
            let tgt: u8 = self.knight_moves[index][j];
            assert(tgt as int == knight_tbl(oi, j as int));
            if tgt != 64 {
                proof {
                    assert(0 <= knight_tbl(oi, j as int) < 64);
                }
                let ghost pre = r@;
                r.push(tgt);
                proof {
                    lemma_push_contains(pre, tgt);
                }
                if self.board[tgt as usize] == ek {
                    chk = true;
                }
            }
        }
        proof {
            assert((exists|j2: int|
                0 <= j2 < 8 && #[trigger] knight_tbl(oi, j2) != 64 && bi[knight_tbl(oi, j2)] == ek)
                <==> (exists|t: int|
                #[trigger] knight_hits(oi, t) && 0 <= t < 64 && bi[t] == enemy_king(w))) by {
                if exists|j2: int|
                    0 <= j2 < 8 && #[trigger] knight_tbl(oi, j2) != 64 && bi[knight_tbl(oi, j2)]
                        == ek {
                    let j2 = choose|j2: int|
                        0 <= j2 < 8 && #[trigger] knight_tbl(oi, j2) != 64 && bi[knight_tbl(oi, j2)]
                            == ek;
                    let t = knight_tbl(oi, j2);
                    assert(0 <= t < 64);
                    assert(knight_hits(oi, t));
                }
                if exists|t: int| #[trigger] knight_hits(oi, t) && 0 <= t < 64 && bi[t] == enemy_king(w) {
                    let t = choose|t: int|
                        #[trigger] knight_hits(oi, t) && 0 <= t < 64 && bi[t] == enemy_king(w);
                    let j2 = choose|j2: int| 0 <= j2 < 8 && #[trigger] knight_tbl(oi, j2) == t && t != 64;
                    assert(knight_tbl(oi, j2) != 64 && bi[knight_tbl(oi, j2)] == ek);
                }
            }
        }
        if chk {
            self.checking_pieces.push(index as u8);
        }
        proof {
            assert forall|t: u8| t < 64 implies (#[trigger] r@.contains(t) <==> knight_hits(
                oi,
                t as int,
            )) by {
                if knight_hits(oi, t as int) {
                    let j2 = choose|j2: int|
                        0 <= j2 < 8 && #[trigger] knight_tbl(oi, j2) == t as int && t as int != 64;
                    assert(r@.contains(t));
                }
            }
        }
        r
    }

    /// Attack squares of the pawn on `index`: its two capture diagonals;
    /// appends `index` to the checking pieces when one holds the enemy king.
    pub fn gen_attacks_pawn(&mut self, index: usize) -> (r: Vec<u8>)
        requires
            old(self).board@.len() == 64,
            old(self).tables_ok(),
            index < 64,
        ensures
            same_core_fields(*old(self), *final(self)),
            final(self).white_attack == old(self).white_attack,
            final(self).black_attack == old(self).black_attack,
            final(self).white_pins == old(self).white_pins,
            final(self).black_pins == old(self).black_pins,
            forall|j: int| 0 <= j < r@.len() ==> r@[j] < 64,
            forall|t: u8|
                t < 64 ==> (#[trigger] r@.contains(t) <==> pawn_hits(
                    is_white_p(old(self).board@[index as int]),
                    index as int,
                    t as int,
                )),
            final(self).checking_pieces@ == (if exists|t: int|
                #[trigger] pawn_hits(is_white_p(old(self).board@[index as int]), index as int, t)
                    && 0 <= t < 64 && old(self).board@[t] == enemy_king(
                    is_white_p(old(self).board@[index as int]),
                ) {
                old(self).checking_pieces@.push(index as u8)
            } else {
                old(self).checking_pieces@
            }),
    {
        let ghost bi = self.board@;
        let ghost oi = index as int;
        let w = self.board[index].is_white();
        let ek: Piece = if w {
            Piece::Bking
        } else {
            Piece::Wking
        };
        let off: usize = if w {
            0
        } else {
            64
        };
        let mut r: Vec<u8> = Vec::new();
        let mut chk: bool = false;
        let t2: u8 = self.pawn_moves[index + off][2];
        let t3: u8 = self.pawn_moves[index + off][3];
        proof {
            assert(t2 as int == pawn_tbl(w, oi, 2));
            assert(t3 as int == pawn_tbl(w, oi, 3));
            if pawn_tbl(w, oi, 2) != 64 {
                assert(0 <= pawn_tbl(w, oi, 2) < 64);
            }
            if pawn_tbl(w, oi, 3) != 64 {
                assert(0 <= pawn_tbl(w, oi, 3) < 64);
            }
        }
        if t2 < 64 {
            let ghost pre = r@;
            r.push(t2);
            proof {
                lemma_push_contains(pre, t2);
            }
            if self.board[t2 as usize] == ek {
                chk = true;
            }
        }
        if t3 < 64 {
            let ghost pre = r@;
            r.push(t3);
            proof {
                lemma_push_contains(pre, t3);
            }
            if self.board[t3 as usize] == ek {
                chk = true;
            }
        }
        proof {
            assert(chk <==> exists|t: int|
                #[trigger] pawn_hits(w, oi, t) && 0 <= t < 64 && bi[t] == enemy_king(w)) by {
                if chk {
                    if t2 < 64 && bi[t2 as int] == ek {
                        assert(pawn_hits(w, oi, t2 as int) && bi[t2 as int] == enemy_king(w));
                    } else {
                        assert(pawn_hits(w, oi, t3 as int) && bi[t3 as int] == enemy_king(w));
                    }
                }
                if exists|t: int| #[trigger] pawn_hits(w, oi, t) && 0 <= t < 64 && bi[t] == enemy_king(w) {
                    let t = choose|t: int|
                        #[trigger] pawn_hits(w, oi, t) && 0 <= t < 64 && bi[t] == enemy_king(w);
                    assert(t == t2 as int || t == t3 as int);
                }
            }
        }
        if chk {
            self.checking_pieces.push(index as u8);
        }
        r
    }

    /// Attack squares of the king on `index`: every adjacent square,
    /// regardless of occupancy.  Kings never check, so the checking pieces
    /// are left alone.
    pub fn gen_attacks_king(&mut self, index: usize) -> (r: Vec<u8>)
        requires
            old(self).board@.len() == 64,
            old(self).tables_ok(),
            index < 64,
        ensures
            same_core_fields(*old(self), *final(self)),
            final(self).white_attack == old(self).white_attack,
            final(self).black_attack == old(self).black_attack,
            final(self).white_pins == old(self).white_pins,
            final(self).black_pins == old(self).black_pins,
            final(self).checking_pieces@ == old(self).checking_pieces@,
            forall|j: int| 0 <= j < r@.len() ==> r@[j] < 64,
            forall|t: u8| t < 64 ==> (#[trigger] r@.contains(t) <==> king_hits(index as int, t as int)),
    {
        let ghost oi = index as int;
        let mut r: Vec<u8> = Vec::new();
        for j in 0..8usize
            invariant
                self == old(self),
                self.board@.len() == 64,
                self.tables_ok(),
                oi == index as int,
                index < 64,
                forall|j2: int| 0 <= j2 < r@.len() ==> r@[j2] < 64,
                forall|t: u8|
                    t < 64 ==> (#[trigger] r@.contains(t) <==> exists|j2: int|
                        0 <= j2 < j && #[trigger] king_tbl(oi, j2) == t as int && t != 64),
        {
            let tgt: u8 = self.king_moves[index][j];
            assert(tgt as int == king_tbl(oi, j as int));
            if tgt != 64 {
                proof {
                    assert(0 <= king_tbl(oi, j as int) < 64);
                }
                let ghost pre = r@;
                r.push(tgt);
                proof {
                    lemma_push_contains(pre, tgt);
                }
            }
        }
        proof {
            assert forall|t: u8| t < 64 implies (#[trigger] r@.contains(t) <==> king_hits(
                oi,
                t as int,
            )) by {
                if king_hits(oi, t as int) {
                    let j2 = choose|j2: int|
                        0 <= j2 < 8 && #[trigger] king_tbl(oi, j2) == t as int && t as int != 64;
                    assert(r@.contains(t));
                }
            }
        }
        r
    }

    /// Attack squares of the piece on `index`, which belongs to the side to
    /// move; extends the checking pieces and the mover's pin board on the
    /// way.
    pub fn generate_attacks(&mut self, index: usize) -> (r: Vec<u8>)
        requires
            old(self).board@.len() == 64,
            old(self).tables_ok(),
            index < 64,
            old(self).board@[index as int] != Piece::Empty,
            is_white_p(old(self).board@[index as int]) == old(self).is_white_turn,
        ensures
            same_core_fields(*old(self), *final(self)),
            final(self).white_attack == old(self).white_attack,
            final(self).black_attack == old(self).black_attack,
            final(self).pins_bb(!old(self).is_white_turn) == old(self).pins_bb(
                !old(self).is_white_turn,
            ),
            forall|j: int| 0 <= j < r@.len() ==> r@[j] < 64,
            forall|t: u8|
                t < 64 ==> (#[trigger] r@.contains(t) <==> attack_from(
                    old(self).board@,
                    index as int,
                    t as int,
                ) || shadow_from(
                    old(self).board@,
                    old(self).is_white_turn,
                    index as int,
                    t as int,
                )),
            forall|i: u64|
                i < 64 ==> (#[trigger] bit_set(
                    final(self).pins_bb(old(self).is_white_turn).0,
                    i,
                ) <==> bit_set(old(self).pins_bb(old(self).is_white_turn).0, i) || pin_mask_from(
                    old(self).board@,
                    old(self).is_white_turn,
                    index as int,
                    i as int,
                )),
            final(self).checking_pieces@ == (if is_checker(
                old(self).board@,
                old(self).is_white_turn,
                index as int,
            ) {
                old(self).checking_pieces@.push(index as u8)
            } else {
                old(self).checking_pieces@
            }),
    {
        let p = self.board[index];
        match p {
            Piece::Wking | Piece::Bking => self.gen_attacks_king(index),
            Piece::Wqueen | Piece::Bqueen => self.gen_attacks_slider(index as u8, true, true),
            Piece::Wrook | Piece::Brook => self.gen_attacks_slider(index as u8, true, false),
            Piece::Wbishop | Piece::Bbishop => self.gen_attacks_slider(index as u8, false, true),
            Piece::Wknight | Piece::Bknight => self.gen_attacks_knight(index),
            Piece::Wpawn | Piece::Bpawn => self.gen_attacks_pawn(index),
            _ => {
                proof {
                    assert(p == Piece::Empty);
                    assert(false);
                }
                Vec::new()
            },
        }
    }

    /// Recompute the attacked-square set of the side to move, extend its pin
    /// board with the pins its sliders lay, and rebuild the list of its
    /// pieces that check the enemy king.
    pub fn update_attacked_squares(&mut self)
        requires
            old(self).board@.len() == 64,
            old(self).tables_ok(),
        ensures
            same_core_fields(*old(self), *final(self)),
            final(self).attack_bb(!old(self).is_white_turn) == old(self).attack_bb(
                !old(self).is_white_turn,
            ),
            final(self).pins_bb(!old(self).is_white_turn) == old(self).pins_bb(
                !old(self).is_white_turn,
            ),
            forall|i: u64|
                i < 64 ==> (#[trigger] bit_set(
                    final(self).attack_bb(old(self).is_white_turn).0,
                    i,
                ) <==> attack_mark(old(self).board@, old(self).is_white_turn, i as int)),
            forall|i: u64|
                i < 64 ==> (#[trigger] bit_set(
                    final(self).pins_bb(old(self).is_white_turn).0,
                    i,
                ) <==> bit_set(old(self).pins_bb(old(self).is_white_turn).0, i) || pinned_mark(
                    old(self).board@,
                    old(self).is_white_turn,
                    i as int,
                )),
            final(self).checking_pieces@ == checkers(old(self).board@, old(self).is_white_turn),
    {
        let ghost bi = self.board@;
        let ghost w = self.is_white_turn;
        self.checking_pieces = Vec::new();
        let mut attacked = Bitboard::empty();
        let mut i: usize = 0;
        while i < 64
            invariant
                bi == self.board@,
                w == self.is_white_turn,
                self.board@.len() == 64,
                self.tables_ok(),
                i <= 64,
                same_core_fields(*old(self), *self),
                self.white_attack == old(self).white_attack,
                self.black_attack == old(self).black_attack,
                self.pins_bb(!w) == old(self).pins_bb(!w),
                forall|t: u64|
                    t < 64 ==> (#[trigger] bit_set(attacked.0, t) <==> exists|o: int|
                        0 <= o < i && #[trigger] owned_sq(bi, w, o) && (attack_from(bi, o, t as int)
                            || shadow_from(bi, w, o, t as int))),
                forall|t: u64|
                    t < 64 ==> (#[trigger] bit_set(self.pins_bb(w).0, t) <==> bit_set(
                        old(self).pins_bb(w).0,
                        t,
                    ) || exists|o: int|
                        0 <= o < i && #[trigger] owned_sq(bi, w, o) && pin_mask_from(
                            bi,
                            w,
                            o,
                            t as int,
                        )),
                self.checking_pieces@ == checkers_upto(bi, w, i as int),
            decreases 64 - i,
        {
            let p = self.board[i];
            let is_own = p != Piece::Empty && p.is_white() == self.is_white_turn;
            if is_own {
                let atk = self.generate_attacks(i);
                attacked.switch_on_indices(&atk);
                proof {
                    assert forall|t: u64| t < 64 implies (#[trigger] bit_set(attacked.0, t)
                        <==> exists|o: int|
                        0 <= o < i + 1 && #[trigger] owned_sq(bi, w, o) && (attack_from(
                            bi,
                            o,
                            t as int,
                        ) || shadow_from(bi, w, o, t as int))) by {
                        if bit_set(attacked.0, t) {
                            if atk@.contains(t as u8) {
                                assert(owned_sq(bi, w, i as int) && (attack_from(bi, i as int, t as int)
                                    || shadow_from(bi, w, i as int, t as int)));
                            }
                        }
                        if exists|o: int|
                            0 <= o < i + 1 && #[trigger] owned_sq(bi, w, o) && (attack_from(
                                bi,
                                o,
                                t as int,
                            ) || shadow_from(bi, w, o, t as int)) {
                            let o = choose|o: int|
                                0 <= o < i + 1 && #[trigger] owned_sq(bi, w, o) && (attack_from(
                                    bi,
                                    o,
                                    t as int,
                                ) || shadow_from(bi, w, o, t as int));
                            if o == i as int {
                                assert(atk@.contains(t as u8));
                                assert(bit_set(attacked.0, t));
                            }
                        }
                    }
                    assert forall|t: u64| t < 64 implies (#[trigger] bit_set(self.pins_bb(w).0, t)
                        <==> bit_set(old(self).pins_bb(w).0, t) || exists|o: int|
                        0 <= o < i + 1 && #[trigger] owned_sq(bi, w, o) && pin_mask_from(
                            bi,
                            w,
                            o,
                            t as int,
                        )) by {
                        if bit_set(self.pins_bb(w).0, t) && !bit_set(old(self).pins_bb(w).0, t) {
                            if pin_mask_from(bi, w, i as int, t as int) {
                                assert(owned_sq(bi, w, i as int));
                            }
                        }
                        if exists|o: int|
                            0 <= o < i + 1 && #[trigger] owned_sq(bi, w, o) && pin_mask_from(
                                bi,
                                w,
                                o,
                                t as int,
                            ) {
                            let o = choose|o: int|
                                0 <= o < i + 1 && #[trigger] owned_sq(bi, w, o) && pin_mask_from(
                                    bi,
                                    w,
                                    o,
                                    t as int,
                                );
                            assert(bit_set(self.pins_bb(w).0, t));
                        }
                    }
                    assert(self.checking_pieces@ == checkers_upto(bi, w, i as int + 1)) by {
                        assert(owned_sq(bi, w, i as int));
                    }
                }
            } else {
                proof {
                    assert(!owned_sq(bi, w, i as int));
                    assert(!is_checker(bi, w, i as int));
                    assert forall|t: u64| t < 64 implies (#[trigger] bit_set(attacked.0, t)
                        <==> exists|o: int|
                        0 <= o < i + 1 && #[trigger] owned_sq(bi, w, o) && (attack_from(
                            bi,
                            o,
                            t as int,
                        ) || shadow_from(bi, w, o, t as int))) by {
                        if exists|o: int|
                            0 <= o < i + 1 && #[trigger] owned_sq(bi, w, o) && (attack_from(
                                bi,
                                o,
                                t as int,
                            ) || shadow_from(bi, w, o, t as int)) {
                            let o = choose|o: int|
                                0 <= o < i + 1 && #[trigger] owned_sq(bi, w, o) && (attack_from(
                                    bi,
                                    o,
                                    t as int,
                                ) || shadow_from(bi, w, o, t as int));
                            assert(o < i as int);
                        }
                    }
                    assert forall|t: u64| t < 64 implies (#[trigger] bit_set(self.pins_bb(w).0, t)
                        <==> bit_set(old(self).pins_bb(w).0, t) || exists|o: int|
                        0 <= o < i + 1 && #[trigger] owned_sq(bi, w, o) && pin_mask_from(
                            bi,
                            w,
                            o,
                            t as int,
                        )) by {
                        if exists|o: int|
                            0 <= o < i + 1 && #[trigger] owned_sq(bi, w, o) && pin_mask_from(
                                bi,
                                w,
                                o,
                                t as int,
                            ) {
                            let o = choose|o: int|
                                0 <= o < i + 1 && #[trigger] owned_sq(bi, w, o) && pin_mask_from(
                                    bi,
                                    w,
                                    o,
                                    t as int,
                                );
                            assert(o < i as int);
                        }
                    }
                }
            }
            i = i + 1;
        }
        proof {
            assert forall|t: u64| t < 64 implies (#[trigger] bit_set(
                attacked.0,
                t,
            ) <==> attack_mark(bi, w, t as int)) by {
                assert(bit_set(attacked.0, t) <==> (attacked_by(bi, w, t as int) || shadowed_by(
                    bi,
                    w,
                    t as int,
                ))) by {
                    if attacked_by(bi, w, t as int) {
                        let o = choose|o: int| #[trigger] owned_sq(bi, w, o) && attack_from(bi, o, t as int);
                        assert(bit_set(attacked.0, t));
                    }
                    if shadowed_by(bi, w, t as int) {
                        let o = choose|o: int| #[trigger] owned_sq(bi, w, o) && shadow_from(bi, w, o, t as int);
                        assert(bit_set(attacked.0, t));
                    }
                    if bit_set(attacked.0, t) {
                        let o = choose|o: int|
                            0 <= o < 64 && #[trigger] owned_sq(bi, w, o) && (attack_from(
                                bi,
                                o,
                                t as int,
                            ) || shadow_from(bi, w, o, t as int));
                        if attack_from(bi, o, t as int) {
                            assert(attacked_by(bi, w, t as int));
                        } else {
                            assert(shadowed_by(bi, w, t as int));
                        }
                    }
                }
            }
            assert forall|t: u64| t < 64 implies (#[trigger] bit_set(self.pins_bb(w).0, t)
                <==> bit_set(old(self).pins_bb(w).0, t) || pinned_mark(bi, w, t as int)) by {
                if pinned_mark(bi, w, t as int) {
                    let o = choose|o: int| #[trigger] owned_sq(bi, w, o) && pin_mask_from(bi, w, o, t as int);
                    assert(0 <= o < 64 && owned_sq(bi, w, o) && pin_mask_from(bi, w, o, t as int));
                    assert(bit_set(self.pins_bb(w).0, t));
                }
                if bit_set(self.pins_bb(w).0, t) && !bit_set(old(self).pins_bb(w).0, t) {
                    let o = choose|o: int|
                        0 <= o < 64 && #[trigger] owned_sq(bi, w, o) && pin_mask_from(
                            bi,
                            w,
                            o,
                            t as int,
                        );
                    assert(pinned_mark(bi, w, t as int));
                }
            }
        }
        let ghost pins_w: u64 = self.pins_bb(w).0;
        let ghost pins_o: u64 = self.pins_bb(!w).0;
        let ghost check_seq = self.checking_pieces@;
        if self.is_white_turn {
            self.white_attack = attacked;
        } else {
            self.black_attack = attacked;
        }
        proof {
            assert(self.attack_bb(w).0 == attacked.0);
            assert(self.pins_bb(w).0 == pins_w);
            assert(self.pins_bb(!w).0 == pins_o);
            assert(self.checking_pieces@ == check_seq);
        }
    }
}

/// Walk one slider ray from `index` for move generation: empty squares are
/// targets, the first occupied square is a target only when it holds an enemy
/// piece, and the ray ends at the first occupied square.
fn walk_move_dir(board: &Vec<Piece>, index: u8, dr: i32, dc: i32, moves: &mut Vec<u8>)
    requires
        board@.len() == 64,
        index < 64,
        -1 <= dr <= 1,
        -1 <= dc <= 1,
        dr != 0 || dc != 0,
        forall|j: int| 0 <= j < old(moves)@.len() ==> old(moves)@[j] < 64,
        forall|j1: int, j2: int|
            0 <= j1 < j2 < old(moves)@.len() ==> #[trigger] old(moves)@[j1] != #[trigger] old(moves)@[j2],
    ensures
        forall|j: int| 0 <= j < final(moves)@.len() ==> final(moves)@[j] < 64,
        forall|t: u8|
            t < 64 ==> (#[trigger] final(moves)@.contains(t) <==> old(moves)@.contains(t) || (
            slider_attack(board@, index as int, dr as int, dc as int, t as int) && (board@[t as int]
                == Piece::Empty || opponent(board@[t as int], board@[index as int])))),
        forall|j1: int, j2: int|
            0 <= j1 < j2 < final(moves)@.len() ==> #[trigger] final(moves)@[j1] != #[trigger] final(moves)@[j2],
{
    let ghost bi = board@;
    let ghost oi = index as int;
    let ghost dri = dr as int;
    let ghost dci = dc as int;
    let ghost moves0 = moves@;
    let or: i32 = (index / 8) as i32;
    let oc: i32 = (index % 8) as i32;
    let mut k: u32 = 1;
    loop
        invariant_except_break
            forall|j: int| 1 <= j < k ==> #[trigger] step_on_board(oi, dri, dci, j),
            forall|j: int| 1 <= j < k ==> bi[#[trigger] step_sq(oi, dri, dci, j)] == Piece::Empty,
            forall|t: u8|
                t < 64 ==> (#[trigger] moves@.contains(t) <==> moves0.contains(t) || (exists|j: int|
                    1 <= j < k && t as int == #[trigger] step_sq(oi, dri, dci, j))),
        invariant
            board@ == bi,
            board@.len() == 64,
            index < 64,
            oi == index as int,
            dri == dr as int,
            dci == dc as int,
            -1 <= dr <= 1,
            -1 <= dc <= 1,
            dr != 0 || dc != 0,
            1 <= k <= 8,
            or == row_of(oi),
            oc == col_of(oi),
            moves0 == old(moves)@,
            forall|j: int| 0 <= j < moves@.len() ==> moves@[j] < 64,
            forall|j1: int, j2: int|
                0 <= j1 < j2 < moves@.len() ==> #[trigger] moves@[j1] != #[trigger] moves@[j2],
        ensures
            forall|t: u8|
                t < 64 ==> (#[trigger] moves@.contains(t) <==> moves0.contains(t) || (slider_attack(
                    bi,
                    oi,
                    dri,
                    dci,
                    t as int,
                ) && (bi[t as int] == Piece::Empty || opponent(bi[t as int], bi[oi])))),
            forall|j1: int, j2: int|
                0 <= j1 < j2 < moves@.len() ==> #[trigger] moves@[j1] != #[trigger] moves@[j2],
        decreases 9 - k,
    {
        proof {
            assert(-8 <= (k as int) * (dr as int) <= 8) by (nonlinear_arith)
                requires
                    1 <= k <= 8,
                    -1 <= dr as int <= 1,
            ;
            assert(-8 <= (k as int) * (dc as int) <= 8) by (nonlinear_arith)
                requires
                    1 <= k <= 8,
                    -1 <= dc as int <= 1,
            ;
        }
        let cr: i32 = or + (k as i32) * dr;
        let cc: i32 = oc + (k as i32) * dc;
        proof {
            assert(cr == crate::geometry::step_row(oi, dri, k as int));
            assert(cc == crate::geometry::step_col(oi, dci, k as int));
        }
        if !(0 <= cr && cr < 8 && 0 <= cc && cc < 8) {
            proof {
                assert(!step_on_board(oi, dri, dci, k as int));
                assert forall|j: int| k as int <= j implies !step_on_board(oi, dri, dci, j) by {
                    crate::geometry::lemma_off_monotone(oi, dri, dci, k as int, j);
                }
                assert forall|t: u8| t < 64 implies (#[trigger] moves@.contains(t)
                    <==> moves0.contains(t) || (slider_attack(bi, oi, dri, dci, t as int) && (bi[t as int]
                    == Piece::Empty || opponent(bi[t as int], bi[oi])))) by {
                    if slider_attack(bi, oi, dri, dci, t as int) {
                        let m = choose|m: int|
                            1 <= m <= 7 && #[trigger] step_sq(oi, dri, dci, m) == t as int
                                && step_on_board(oi, dri, dci, m) && path_clear(bi, oi, dri, dci, m);
                        assert(m < k as int);
                        assert(bi[t as int] == Piece::Empty);
                        assert(moves@.contains(t));
                    }
                    if moves@.contains(t) && !moves0.contains(t) {
                        let j = choose|j: int|
                            1 <= j < k && t as int == #[trigger] step_sq(oi, dri, dci, j);
                        assert(path_clear(bi, oi, dri, dci, j));
                        assert(1 <= j <= 7 && step_sq(oi, dri, dci, j) == t as int && step_on_board(
                            oi,
                            dri,
                            dci,
                            j,
                        ) && path_clear(bi, oi, dri, dci, j));
                        assert(slider_attack(bi, oi, dri, dci, t as int));
                    }
                }
            }
            break;
        }
        let sqi: u8 = (cr * 8 + cc) as u8;
        proof {
            assert(step_on_board(oi, dri, dci, k as int));
            assert(sqi as int == step_sq(oi, dri, dci, k as int));
            crate::geometry::lemma_step_bound(oi, dri, dci, k as int);
        }
        let p: Piece = board[sqi as usize];
        if p == Piece::Empty {
            let ghost pre = moves@;
            let dup = contains_sq(moves, sqi);
            if !dup {
                moves.push(sqi);
            }
            proof {
                if !dup {
                    lemma_push_contains(pre, sqi);
                    lemma_push_distinct(pre, sqi);
                }
                assert forall|t: u8| t < 64 implies (#[trigger] moves@.contains(t)
                    <==> moves0.contains(t) || (exists|j: int|
                    1 <= j < k + 1 && t as int == #[trigger] step_sq(oi, dri, dci, j))) by {
                    if t == sqi {
                        assert(t as int == step_sq(oi, dri, dci, k as int));
                        assert(moves@.contains(t));
                    }
                }
            }
            k = k + 1;
        } else {
            let take = p.is_opponent(board[index as usize]);
            if take {
                let ghost pre = moves@;
                let dup = contains_sq(moves, sqi);
                if !dup {
                    moves.push(sqi);
                }
                proof {
                    if !dup {
                        lemma_push_contains(pre, sqi);
                        lemma_push_distinct(pre, sqi);
                    }
                    assert(moves@.contains(sqi));
                }
            }
            proof {
                assert(path_clear(bi, oi, dri, dci, k as int));
                assert forall|t: u8| t < 64 implies (#[trigger] moves@.contains(t)
                    <==> moves0.contains(t) || (slider_attack(bi, oi, dri, dci, t as int) && (bi[t as int]
                    == Piece::Empty || opponent(bi[t as int], bi[oi])))) by {
                    if slider_attack(bi, oi, dri, dci, t as int) {
                        let m = choose|m: int|
                            1 <= m <= 7 && #[trigger] step_sq(oi, dri, dci, m) == t as int
                                && step_on_board(oi, dri, dci, m) && path_clear(bi, oi, dri, dci, m);
                        if m > k as int {
                            assert(bi[step_sq(oi, dri, dci, k as int)] == Piece::Empty);
                            assert(false);
                        } else if m == k as int {
                            assert(t == sqi);
                            assert(bi[t as int] != Piece::Empty);
                        } else {
                            assert(bi[t as int] == Piece::Empty);
                            assert(moves@.contains(t));
                        }
                    }
                    if moves@.contains(t) && !moves0.contains(t) {
                        if t == sqi {
                            assert(1 <= k as int <= 7 && step_sq(oi, dri, dci, k as int) == t as int
                                && step_on_board(oi, dri, dci, k as int) && path_clear(
                                bi,
                                oi,
                                dri,
                                dci,
                                k as int,
                            ));
                            assert(slider_attack(bi, oi, dri, dci, t as int));
                        } else {
                            let j = choose|j: int|
                                1 <= j < k && t as int == #[trigger] step_sq(oi, dri, dci, j);
                            assert(path_clear(bi, oi, dri, dci, j));
                            assert(1 <= j <= 7 && step_sq(oi, dri, dci, j) == t as int
                                && step_on_board(oi, dri, dci, j) && path_clear(bi, oi, dri, dci, j));
                            assert(slider_attack(bi, oi, dri, dci, t as int));
                            assert(bi[t as int] == Piece::Empty);
                        }
                    }
                }
            }
            break;
        }
    }
}

impl Chess {
    /// Pseudo-legal ray moves of the rook (or rook half of a queen) on
    /// `index`.
    pub fn gen_moves_rook(&self, index: usize) -> (r: Vec<u8>)
        requires
            self.board@.len() == 64,
            index < 64,
        ensures
            forall|j: int| 0 <= j < r@.len() ==> r@[j] < 64,
            forall|t: u8|
                t < 64 ==> (#[trigger] r@.contains(t) <==> rook_move_ok(
                    self.board@,
                    index as int,
                    t as int,
                )),
            forall|j1: int, j2: int|
                0 <= j1 < j2 < r@.len() ==> #[trigger] r@[j1] != #[trigger] r@[j2],
    {
        let mut r: Vec<u8> = Vec::new();
        walk_move_dir(&self.board, index as u8, 0, 1, &mut r);
        walk_move_dir(&self.board, index as u8, 0, -1, &mut r);
        walk_move_dir(&self.board, index as u8, -1, 0, &mut r);
        walk_move_dir(&self.board, index as u8, 1, 0, &mut r);
        r
    }

    /// Pseudo-legal ray moves of the bishop (or bishop half of a queen) on
    /// `index`.
    pub fn gen_moves_bishop(&self, index: usize) -> (r: Vec<u8>)
        requires
            self.board@.len() == 64,
            index < 64,
        ensures
            forall|j: int| 0 <= j < r@.len() ==> r@[j] < 64,
            forall|t: u8|
                t < 64 ==> (#[trigger] r@.contains(t) <==> bishop_move_ok(
                    self.board@,
                    index as int,
                    t as int,
                )),
            forall|j1: int, j2: int|
                0 <= j1 < j2 < r@.len() ==> #[trigger] r@[j1] != #[trigger] r@[j2],
    {
        let mut r: Vec<u8> = Vec::new();
        walk_move_dir(&self.board, index as u8, 1, 1, &mut r);
        walk_move_dir(&self.board, index as u8, 1, -1, &mut r);
        walk_move_dir(&self.board, index as u8, -1, 1, &mut r);
        walk_move_dir(&self.board, index as u8, -1, -1, &mut r);
        r
    }

    /// Pseudo-legal knight jumps from `index`.
    pub fn gen_moves_knight(&self, index: usize) -> (r: Vec<u8>)
        requires
            self.board@.len() == 64,
            self.tables_ok(),
            index < 64,
        ensures
            forall|j: int| 0 <= j < r@.len() ==> r@[j] < 64,
            forall|t: u8|
                t < 64 ==> (#[trigger] r@.contains(t) <==> knight_move_ok(
                    self.board@,
                    index as int,
                    t as int,
                )),
    {
        let ghost bi = self.board@;
        let ghost oi = index as int;
        let mut r: Vec<u8> = Vec::new();
        for j in 0..8usize
            invariant
                bi == self.board@,
                bi.len() == 64,
                self.tables_ok(),
                oi == index as int,
                index < 64,
                forall|j2: int| 0 <= j2 < r@.len() ==> r@[j2] < 64,
                forall|t: u8|
                    t < 64 ==> (#[trigger] r@.contains(t) <==> exists|j2: int|
                        0 <= j2 < j && #[trigger] knight_tbl(oi, j2) == t as int && t != 64
                            && opponent_or_empty(bi[t as int], bi[oi])),
        {
            let tgt: u8 = self.knight_moves[index][j];
            assert(tgt as int == knight_tbl(oi, j as int));
            if tgt != 64 {
                proof {
                    assert(0 <= knight_tbl(oi, j as int) < 64);
                }
                if self.board[tgt as usize].is_opponent_or_empty(self.board[index]) {
                    let ghost pre = r@;
                    r.push(tgt);
                    proof {
                        lemma_push_contains(pre, tgt);
                    }
                }
            }
        }
        proof {
            assert forall|t: u8| t < 64 implies (#[trigger] r@.contains(t) <==> knight_move_ok(
                bi,
                oi,
                t as int,
            )) by {
                if knight_move_ok(bi, oi, t as int) {
                    let j2 = choose|j2: int|
                        0 <= j2 < 8 && #[trigger] knight_tbl(oi, j2) == t as int && t as int != 64;
                    assert(r@.contains(t));
                }
                if r@.contains(t) {
                    let j2 = choose|j2: int|
                        0 <= j2 < 8 && #[trigger] knight_tbl(oi, j2) == t as int && t != 64
                            && opponent_or_empty(bi[t as int], bi[oi]);
                    assert(knight_hits(oi, t as int));
                }
            }
        }
        r
    }

    /// Pseudo-legal pawn moves from `index`: pushes over empty squares and
    /// diagonal captures, including the en-passant target.
    pub fn gen_moves_pawn(&self, index: usize) -> (r: Vec<u8>)
        requires
            self.board@.len() == 64,
            self.tables_ok(),
            index < 64,
        ensures
            forall|j: int| 0 <= j < r@.len() ==> r@[j] < 64,
            forall|t: u8|
                t < 64 ==> (#[trigger] r@.contains(t) <==> pawn_move_ok(
                    self.state(),
                    index as int,
                    t as int,
                )),
    {
        let ghost c = self.state();
        let ghost oi = index as int;
        let ghost w = is_white_p(self.board@[index as int]);
        let mut r: Vec<u8> = Vec::new();
        let color_offset: usize = if self.board[index].is_white() {
            0
        } else {
            64
        };
        let fwd: u8 = self.pawn_moves[index + color_offset][1];
        let dbl: u8 = self.pawn_moves[index + color_offset][0];
        let capl: u8 = self.pawn_moves[index + color_offset][2];
        let capr: u8 = self.pawn_moves[index + color_offset][3];
        proof {
            assert(fwd as int == pawn_tbl(w, oi, 1));
            assert(dbl as int == pawn_tbl(w, oi, 0));
            assert(capl as int == pawn_tbl(w, oi, 2));
            assert(capr as int == pawn_tbl(w, oi, 3));
            if pawn_tbl(w, oi, 1) != 64 {
                assert(0 <= pawn_tbl(w, oi, 1) < 64);
            }
            if pawn_tbl(w, oi, 0) != 64 {
                assert(0 <= pawn_tbl(w, oi, 0) < 64);
            }
            if pawn_tbl(w, oi, 2) != 64 {
                assert(0 <= pawn_tbl(w, oi, 2) < 64);
            }
            if pawn_tbl(w, oi, 3) != 64 {
                assert(0 <= pawn_tbl(w, oi, 3) < 64);
            }
        }
        if fwd != 64 && self.board[fwd as usize] == Piece::Empty {
            let ghost pre = r@;
            r.push(fwd);
            proof {
                lemma_push_contains(pre, fwd);
            }
            if dbl != 64 && self.board[dbl as usize] == Piece::Empty {
                let ghost pre2 = r@;
                r.push(dbl);
                proof {
                    lemma_push_contains(pre2, dbl);
                }
            }
        }
        if capl != 64 && (self.board[capl as usize].is_opponent(self.board[index]) || self.en_passant
            == capl) {
            let ghost pre = r@;
            r.push(capl);
            proof {
                lemma_push_contains(pre, capl);
            }
        }
        if capr != 64 && (self.board[capr as usize].is_opponent(self.board[index]) || self.en_passant
            == capr) {
            let ghost pre = r@;
            r.push(capr);
            proof {
                lemma_push_contains(pre, capr);
            }
        }
        r
    }

    /// Castling destinations for the king on `index`: each right whose king
    /// and rook stand home, whose path is empty and whose king path is not
    /// attacked yields its destination.
    pub fn gen_castling_king(&self, index: usize) -> (r: Vec<u8>)
        requires
            self.wf(),
            self.fresh(),
            index < 64,
            is_king(self.board@[index as int]),
            is_white_p(self.board@[index as int]) == self.is_white_turn,
        ensures
            forall|j: int| 0 <= j < r@.len() ==> r@[j] < 64,
            forall|t: u8|
                t < 64 ==> (#[trigger] r@.contains(t) <==> castle_ok(
                    self.state(),
                    index as int,
                    t as int,
                )),
            r@ == castle_list(self.state(), index as int),
    {
        let mut r: Vec<u8> = Vec::new();
        let piece = self.board[index];
        if !piece.is_white() {
            if index == 4 && self.castling.bk && self.board[5] == Piece::Empty && self.board[6]
                == Piece::Empty && self.board[7] == Piece::Brook && !self.is_check(4)
                && !self.is_check(5) && !self.is_check(6) {
                let ghost pre = r@;
                r.push(6);
                proof {
                    lemma_push_contains(pre, 6u8);
                }
            }
            if index == 4 && self.castling.bq && self.board[3] == Piece::Empty && self.board[2]
                == Piece::Empty && self.board[1] == Piece::Empty && self.board[0] == Piece::Brook
                && !self.is_check(4) && !self.is_check(3) && !self.is_check(2) {
                let ghost pre = r@;
                r.push(2);
                proof {
                    lemma_push_contains(pre, 2u8);
                }
            }
        } else {
            if index == 60 && self.castling.wk && self.board[61] == Piece::Empty && self.board[62]
                == Piece::Empty && self.board[63] == Piece::Wrook && !self.is_check(60)
                && !self.is_check(61) && !self.is_check(62) {
                let ghost pre = r@;
                r.push(62);
                proof {
                    lemma_push_contains(pre, 62u8);
                }
            }
            if index == 60 && self.castling.wq && self.board[59] == Piece::Empty && self.board[58]
                == Piece::Empty && self.board[57] == Piece::Empty && self.board[56] == Piece::Wrook
                && !self.is_check(60) && !self.is_check(59) && !self.is_check(58) {
                let ghost pre = r@;
                r.push(58);
                proof {
                    lemma_push_contains(pre, 58u8);
                }
            }
        }
        proof {
            assert(r@ =~= castle_list(self.state(), index as int));
        }
        r
    }

    /// Pseudo-legal king moves from `index`: castling plus single steps onto
    /// empty or enemy squares.
    pub fn gen_moves_king(&self, index: usize) -> (r: Vec<u8>)
        requires
            self.wf(),
            self.fresh(),
            index < 64,
            is_king(self.board@[index as int]),
            is_white_p(self.board@[index as int]) == self.is_white_turn,
        ensures
            forall|j: int| 0 <= j < r@.len() ==> r@[j] < 64,
            forall|t: u8|
                t < 64 ==> (#[trigger] r@.contains(t) <==> king_move_ok(
                    self.state(),
                    index as int,
                    t as int,
                )),
            r@ == castle_list(self.state(), index as int) + crate::model::king_step_list(
                self.board@,
                index as int,
                8,
            ),
    {
        let ghost bi = self.board@;
        let ghost oi = index as int;
        let mut r: Vec<u8> = self.gen_castling_king(index);
        let ghost castles = r@;
        proof {
            assert(r@ =~= castles + crate::model::king_step_list(bi, oi, 0));
        }
        for j in 0..8usize
            invariant
                bi == self.board@,
                bi.len() == 64,
                self.tables_ok(),
                oi == index as int,
                index < 64,
                forall|j2: int| 0 <= j2 < r@.len() ==> r@[j2] < 64,
                forall|t: u8|
                    t < 64 ==> (#[trigger] r@.contains(t) <==> castles.contains(t) || exists|
                        j2: int,
                    |
                        0 <= j2 < j && #[trigger] king_tbl(oi, j2) == t as int && t != 64
                            && opponent_or_empty(bi[t as int], bi[oi])),
                forall|t: u8|
                    t < 64 ==> (castles.contains(t) <==> castle_ok(self.state(), oi, t as int)),
                castles == castle_list(self.state(), oi),
                r@ == castles + crate::model::king_step_list(bi, oi, j as int),
        {
            let tgt: u8 = self.king_moves[index][j];
            assert(tgt as int == king_tbl(oi, j as int));
            let mut took: bool = false;
            if tgt != 64 {
                proof {
                    assert(0 <= king_tbl(oi, j as int) < 64);
                }
                if self.board[tgt as usize].is_opponent_or_empty(self.board[index]) {
                    let ghost pre = r@;
                    r.push(tgt);
                    took = true;
                    proof {
                        lemma_push_contains(pre, tgt);
                    }
                }
            }
            proof {
                let step = crate::model::king_step_list(bi, oi, j as int);
                let step2 = crate::model::king_step_list(bi, oi, j as int + 1);
                if took {
                    assert(step2 == step.push(tgt)) by {
                        assert((king_tbl(oi, j as int)) as u8 == tgt);
                    }
                    assert(r@ =~= castles + step2);
                } else {
                    assert(step2 == step);
                }
            }
        }
        proof {
            assert forall|t: u8| t < 64 implies (#[trigger] r@.contains(t) <==> king_move_ok(
                self.state(),
                oi,
                t as int,
            )) by {
                if king_hits(oi, t as int) && opponent_or_empty(bi[t as int], bi[oi]) {
                    let j2 = choose|j2: int|
                        0 <= j2 < 8 && #[trigger] king_tbl(oi, j2) == t as int && t as int != 64;
                    assert(r@.contains(t));
                }
                if r@.contains(t) && !castles.contains(t) {
                    let j2 = choose|j2: int|
                        0 <= j2 < 8 && #[trigger] king_tbl(oi, j2) == t as int && t != 64
                            && opponent_or_empty(bi[t as int], bi[oi]);
                    assert(king_hits(oi, t as int));
                }
            }
        }
        r
    }

    /// Pseudo-legal moves of the piece on `index`, dispatched by its kind.
    pub fn gen_moves(&self, index: usize) -> (r: Vec<u8>)
        requires
            self.wf(),
            self.fresh(),
            index < 64,
            self.board@[index as int] != Piece::Empty,
            is_white_p(self.board@[index as int]) == self.is_white_turn,
        ensures
            forall|j: int| 0 <= j < r@.len() ==> r@[j] < 64,
            forall|t: u8|
                t < 64 ==> (#[trigger] r@.contains(t) <==> pseudo_ok(
                    self.state(),
                    index as int,
                    t as int,
                )),
    {
        match self.board[index] {
            Piece::Wking | Piece::Bking => self.gen_moves_king(index),
            Piece::Wqueen | Piece::Bqueen => {
                let mut moves = self.gen_moves_rook(index);
                let ghost rook_part = moves@;
                let mut more = self.gen_moves_bishop(index);
                let ghost bishop_part = more@;
                moves.append(&mut more);
                proof {
                    lemma_add_contains(rook_part, bishop_part);
                }
                moves
            },
            Piece::Wrook | Piece::Brook => self.gen_moves_rook(index),
            Piece::Wbishop | Piece::Bbishop => self.gen_moves_bishop(index),
            Piece::Wknight | Piece::Bknight => self.gen_moves_knight(index),
            Piece::Wpawn | Piece::Bpawn => self.gen_moves_pawn(index),
            _ => {
                proof {
                    assert(false);
                }
                Vec::new()
            },
        }
    }

    /// The square of the king whose side is to move.
    pub fn king_loc(&self) -> (r: u8)
        ensures
            r == king_of_stm(self.state()),
    {
        if self.is_white_turn {
            self.white_king
        } else {
            self.black_king
        }
    }

    /// Whether `king_position` is in the enemy attack set (which is fresh for
    /// the side that just moved).
    pub fn is_check(&self, king_position: u8) -> (r: bool)
        requires
            self.fresh(),
            king_position < 64,
        ensures
            r == attack_mark(self.board@, !self.is_white_turn, king_position as int),
    {
        proof {
            let mover = !self.is_white_turn;
            let i: u64 = king_position as u64;
            assert(bit_set(self.attack_bb(mover).0, i) <==> attack_mark(
                self.board@,
                mover,
                i as int,
            ));
            assert(i as int == king_position as int);
        }
        if self.is_white_turn {
            self.black_attack
        } else {
            self.white_attack
        }.get_bit(king_position)
    }

    /// The king-safety filter over a pseudo-legal move: all six cases of the
    /// check / pin decision.
    pub fn is_legal(&self, from: u8, to: u8) -> (r: bool)
        requires
            self.wf(),
            self.fresh(),
            from < 64,
            to < 64,
        ensures
            r == filter_ok(self.state(), from as int, to as int),
    {
        proof {
            crate::attacks::lemma_checkers_upto(self.board@, !self.is_white_turn, 64);
            let opp = !self.is_white_turn;
            let fi: u64 = from as u64;
            let ti: u64 = to as u64;
            assert(bit_set(self.pins_bb(opp).0, fi) <==> pinned_mark(self.board@, opp, fi as int));
            assert(bit_set(self.pins_bb(opp).0, ti) <==> pinned_mark(self.board@, opp, ti as int));
            assert(fi as int == from as int && ti as int == to as int);
        }
        if self.is_check(self.king_loc()) {
            if self.board[from as usize] == Piece::Bking || self.board[from as usize]
                == Piece::Wking {
                !self.is_check(to)
            } else if self.checking_pieces.len() == 1 {
                let ck: u8 = self.checking_pieces[0];
                assert(ck < 64);
                if matches!(
                    self.board[ck as usize],
                    Piece::Bbishop
                        | Piece::Wbishop
                        | Piece::Brook
                        | Piece::Wrook
                        | Piece::Bqueen
                        | Piece::Wqueen,
                ) {
                    let blocking_ray = Bitboard::ray(self.king_loc(), ck);
                    blocking_ray.get_bit(to)
                } else {
                    to == ck
                }
            } else {
                false
            }
        } else {
            if self.is_white_turn {
                if self.board[from as usize] == Piece::Wking {
                    !self.is_check(to)
                } else if self.black_pins.get_bit(from) {
                    self.black_pins.get_bit(to)
                } else {
                    true
                }
            } else if self.board[from as usize] == Piece::Bking {
                !self.is_check(to)
            } else if self.white_pins.get_bit(from) {
                self.white_pins.get_bit(to)
            } else {
                true
            }
        }
    }

    /// Fill `self.moves` with the legal destinations of the piece on
    /// `index`, each exactly once.  The contract pins the set of
    /// destinations, which is what interactive callers consume; the list
    /// follows the generator's emission order, which is not part of the
    /// contract.
    pub fn get_legals(&mut self, index: usize)
        requires
            old(self).wf(),
            old(self).fresh(),
            index < 64,
            old(self).board@[index as int] != Piece::Empty,
            is_white_p(old(self).board@[index as int]) == old(self).is_white_turn,
        ensures
            final(self).board@ == old(self).board@,
            final(self).castling == old(self).castling,
            final(self).en_passant == old(self).en_passant,
            final(self).is_white_turn == old(self).is_white_turn,
            final(self).white_king == old(self).white_king,
            final(self).black_king == old(self).black_king,
            final(self).white_attack == old(self).white_attack,
            final(self).black_attack == old(self).black_attack,
            final(self).white_pins == old(self).white_pins,
            final(self).black_pins == old(self).black_pins,
            final(self).checking_pieces@ == old(self).checking_pieces@,
            final(self).knight_moves@ == old(self).knight_moves@,
            final(self).pawn_moves@ == old(self).pawn_moves@,
            final(self).king_moves@ == old(self).king_moves@,
            final(self).last_move == old(self).last_move,
            forall|j: int| 0 <= j < final(self).moves@.len() ==> final(self).moves@[j] < 64,
            forall|t: u8|
                t < 64 ==> (#[trigger] final(self).moves@.contains(t) <==> is_move(
                    old(self).state(),
                    index as int,
                    t as int,
                )),
            forall|j1: int, j2: int|
                0 <= j1 < j2 < final(self).moves@.len() ==> #[trigger] final(self).moves@[j1]
                    != #[trigger] final(self).moves@[j2],
    {
        let gen = self.gen_moves(index);
        let n: usize = gen.len();
        let mut picked: Vec<u8> = Vec::new();
        let mut k: usize = 0;
        while k < n
            invariant
                self.wf(),
                self.fresh(),
                index < 64,
                self == old(self),
                self.board@[index as int] != Piece::Empty,
                is_white_p(self.board@[index as int]) == self.is_white_turn,
                n == gen@.len(),
                k <= n,
                forall|j: int| 0 <= j < gen@.len() ==> gen@[j] < 64,
                forall|t: u8|
                    t < 64 ==> (#[trigger] gen@.contains(t) <==> pseudo_ok(
                        self.state(),
                        index as int,
                        t as int,
                    )),
                forall|j: int| 0 <= j < picked@.len() ==> picked@[j] < 64,
                forall|t: u8|
                    t < 64 ==> (#[trigger] picked@.contains(t) <==> gen@.subrange(
                        0,
                        k as int,
                    ).contains(t) && filter_ok(self.state(), index as int, t as int)),
                forall|j1: int, j2: int|
                    0 <= j1 < j2 < picked@.len() ==> #[trigger] picked@[j1] != #[trigger] picked@[j2],
            decreases n - k,
        {
            let t: u8 = gen[k];
            let ok = self.is_legal(index as u8, t);
            let dup = contains_sq(&picked, t);
            let ghost pre = picked@;
            if ok && !dup {
                picked.push(t);
            }
            proof {
                if ok && !dup {
                    lemma_push_contains(pre, t);
                    lemma_push_distinct(pre, t);
                }
                if ok && dup {
                    assert(picked@.contains(t));
                }
                assert forall|t2: u8| t2 < 64 implies (#[trigger] picked@.contains(t2)
                    <==> gen@.subrange(0, k + 1 as int).contains(t2) && filter_ok(
                    self.state(),
                    index as int,
                    t2 as int,
                )) by {
                    let prefix = gen@.subrange(0, k as int);
                    let prefix2 = gen@.subrange(0, k + 1 as int);
                    assert(prefix2 == prefix.push(gen@[k as int]));
                    lemma_push_contains(prefix, gen@[k as int]);
                    if t2 == t {
                        assert(gen@.contains(t)) by {
                            assert(gen@[k as int] == t);
                        }
                    }
                }
            }
            k = k + 1;
        }
        proof {
            assert(gen@.subrange(0, n as int) == gen@);
        }
        self.moves = picked;
    }

    /// Whether the pair list already holds `(f, t)`.
    fn contains_pair(v: &Vec<(u8, u8)>, f: u8, t: u8) -> (r: bool)
        ensures
            r == v@.contains((f, t)),
    {
        let n: usize = v.len();
        let mut k: usize = 0;
        while k < n
            invariant
                n == v@.len(),
                k <= n,
                forall|j: int| 0 <= j < k ==> v@[j] != (f, t),
            decreases n - k,
        {
            let e = v[k];
            if e.0 == f && e.1 == t {
                proof {
                    assert(v@[k as int] == (f, t));
                }
                return true;
            }
            proof {
                assert(e == (e.0, e.1));
            }
            k = k + 1;
        }
        proof {
            if v@.contains((f, t)) {
                let j = choose|j: int| 0 <= j < v@.len() && v@[j] == (f, t);
                assert(false);
            }
        }
        false
    }

    /// Every legal move of the side to move, as (from, to) pairs in ascending
    /// order of origin square, each exactly once: exactly the pairs
    /// satisfying the move legality predicate.  An empty result with the king
    /// in check is checkmate; empty without check is stalemate.
    pub fn get_all_moves(&self) -> (r: Vec<(u8, u8)>)
        requires
            self.wf(),
            self.fresh(),
        ensures
            forall|j: int| 0 <= j < r@.len() ==> (#[trigger] r@[j]).0 < 64 && r@[j].1 < 64,
            forall|f: u8, t: u8|
                f < 64 && t < 64 ==> (#[trigger] r@.contains((f, t)) <==> is_move(
                    self.state(),
                    f as int,
                    t as int,
                )),
            forall|j1: int, j2: int| 0 <= j1 < j2 < r@.len() ==> #[trigger] r@[j1] != #[trigger] r@[j2],
            // the pairs come in ascending order of origin square
            forall|j1: int, j2: int|
                0 <= j1 < j2 < r@.len() ==> (#[trigger] r@[j1]).0 <= (#[trigger] r@[j2]).0,
    {
        let mut r: Vec<(u8, u8)> = Vec::new();
        let mut i: usize = 0;
        while i < 64
            invariant
                self.wf(),
                self.fresh(),
                i <= 64,
                forall|j: int| 0 <= j < r@.len() ==> (#[trigger] r@[j]).0 < 64 && r@[j].1 < 64,
                forall|f: u8, t: u8|
                    f < 64 && t < 64 ==> (#[trigger] r@.contains((f, t)) <==> f < i && is_move(
                        self.state(),
                        f as int,
                        t as int,
                    )),
                forall|j1: int, j2: int| 0 <= j1 < j2 < r@.len() ==> #[trigger] r@[j1] != #[trigger] r@[j2],
                forall|j: int| 0 <= j < r@.len() ==> (#[trigger] r@[j]).0 < i,
                forall|j1: int, j2: int|
                    0 <= j1 < j2 < r@.len() ==> (#[trigger] r@[j1]).0 <= (#[trigger] r@[j2]).0,
            decreases 64 - i,
        {
            let p = self.board[i];
            if p != Piece::Empty && p.is_white() == self.is_white_turn {
                let gen = self.gen_moves(i);
                let n: usize = gen.len();
                let mut k: usize = 0;
                while k < n
                    invariant
                        self.wf(),
                        self.fresh(),
                        i < 64,
                        self.board@[i as int] != Piece::Empty,
                        is_white_p(self.board@[i as int]) == self.is_white_turn,
                        n == gen@.len(),
                        k <= n,
                        forall|j: int| 0 <= j < gen@.len() ==> gen@[j] < 64,
                        forall|t: u8|
                            t < 64 ==> (#[trigger] gen@.contains(t) <==> pseudo_ok(
                                self.state(),
                                i as int,
                                t as int,
                            )),
                        forall|j: int|
                            0 <= j < r@.len() ==> (#[trigger] r@[j]).0 < 64 && r@[j].1 < 64,
                        forall|f: u8, t: u8|
                            f < 64 && t < 64 ==> (#[trigger] r@.contains((f, t)) <==> (f < i
                                && is_move(self.state(), f as int, t as int)) || (f == i
                                && gen@.subrange(0, k as int).contains(t) && filter_ok(
                                self.state(),
                                f as int,
                                t as int,
                            ))),
                        forall|j1: int, j2: int|
                            0 <= j1 < j2 < r@.len() ==> #[trigger] r@[j1] != #[trigger] r@[j2],
                        forall|j: int| 0 <= j < r@.len() ==> (#[trigger] r@[j]).0 <= i,
                        forall|j1: int, j2: int|
                            0 <= j1 < j2 < r@.len() ==> (#[trigger] r@[j1]).0 <= (
                            #[trigger] r@[j2]).0,
                    decreases n - k,
                {
                    let t: u8 = gen[k];
                    let ok = self.is_legal(i as u8, t);
                    let dup = Chess::contains_pair(&r, i as u8, t);
                    let ghost pre = r@;
                    if ok && !dup {
                        r.push((i as u8, t));
                    }
                    proof {
                        if ok && !dup {
                            lemma_push_contains(pre, (i as u8, t));
                        }
                        assert forall|f2: u8, t2: u8| f2 < 64 && t2 < 64 implies (
                        #[trigger] r@.contains((f2, t2)) <==> (f2 < i && is_move(
                            self.state(),
                            f2 as int,
                            t2 as int,
                        )) || (f2 == i && gen@.subrange(0, k + 1 as int).contains(t2) && filter_ok(
                            self.state(),
                            f2 as int,
                            t2 as int,
                        ))) by {
                            let prefix = gen@.subrange(0, k as int);
                            let prefix2 = gen@.subrange(0, k + 1 as int);
                            assert(prefix2 == prefix.push(gen@[k as int]));
                            lemma_push_contains(prefix, gen@[k as int]);
                            if t2 == t && f2 == i as u8 {
                                assert(gen@.contains(t)) by {
                                    assert(gen@[k as int] == t);
                                }
                            }
                        }
                    }
                    k = k + 1;
                }
                proof {
                    assert(gen@.subrange(0, n as int) == gen@);
                    assert forall|f2: u8, t2: u8| f2 < 64 && t2 < 64 implies (
                    #[trigger] r@.contains((f2, t2)) <==> f2 < i + 1 && is_move(
                        self.state(),
                        f2 as int,
                        t2 as int,
                    )) by {
                        if f2 == i as u8 {
                            assert(gen@.contains(t2) <==> pseudo_ok(self.state(), f2 as int, t2 as int));
                        }
                    }
                }
            } else {
                proof {
                    assert forall|f2: u8, t2: u8| f2 < 64 && t2 < 64 implies (
                    #[trigger] r@.contains((f2, t2)) <==> f2 < i + 1 && is_move(
                        self.state(),
                        f2 as int,
                        t2 as int,
                    )) by {
                        if f2 == i as u8 {
                            assert(!is_move(self.state(), f2 as int, t2 as int));
                        }
                    }
                }
            }
            i = i + 1;
        }
        r
    }
}

fn initial_piece_at(i: usize) -> (r: Piece)
    requires
        i < 64,
    ensures
        r == initial_piece(i as int),
{
    if i == 0 || i == 7 {
        Piece::Brook
    } else if i == 1 || i == 6 {
        Piece::Bknight
    } else if i == 2 || i == 5 {
        Piece::Bbishop
    } else if i == 3 {
        Piece::Bqueen
    } else if i == 4 {
        Piece::Bking
    } else if 8 <= i && i < 16 {
        Piece::Bpawn
    } else if 48 <= i && i < 56 {
        Piece::Wpawn
    } else if i == 56 || i == 63 {
        Piece::Wrook
    } else if i == 57 || i == 62 {
        Piece::Wknight
    } else if i == 58 || i == 61 {
        Piece::Wbishop
    } else if i == 59 {
        Piece::Wqueen
    } else if i == 60 {
        Piece::Wking
    } else {
        Piece::Empty
    }
}

impl Chess {
    /// The starting position, with black's attack set already computed so the
    /// caches are fresh for white's first move.
    pub fn new() -> (r: Self)
        ensures
            r.state() == initial_core(),
            r.wf(),
            r.fresh(),
            r.moves@.len() == 0,
            r.last_move == (64u8, 64u8),
    {
        let mut board: Vec<Piece> = Vec::new();
        for i in 0..64usize
            invariant
                board@.len() == i,
                forall|j: int| 0 <= j < i ==> board@[j] == initial_piece(j),
        {
            board.push(initial_piece_at(i));
        }
        proof {
            assert(board@ =~= initial_core().board);
        }
        let mut c = Chess {
            board,
            moves: Vec::new(),
            castling: CastlingRights { wk: true, wq: true, bk: true, bq: true },
            en_passant: 64,
            is_white_turn: false,
            white_king: 60,
            black_king: 4,
            white_attack: Bitboard::empty(),
            black_attack: Bitboard::empty(),
            white_pins: Bitboard::empty(),
            black_pins: Bitboard::empty(),
            checking_pieces: Vec::new(),
            knight_moves: Chess::precompute_knight(),
            pawn_moves: Chess::precompute_pawn(),
            king_moves: Chess::precompute_king(),
            last_move: (64, 64),
        };
        // black is the side that "just moved": compute its attack set, pins
        // and checking pieces, then hand the move to white
        c.update_attacked_squares();
        let ghost amid = c.attack_bb(false).0;
        let ghost pmid = c.pins_bb(false).0;
        let ghost cmid = c.checking_pieces@;
        let ghost bmid = c.board@;
        c.is_white_turn = true;
        proof {
            crate::bitboard::lemma_bits_zero();
            assert(c.attack_bb(false).0 == amid && c.pins_bb(false).0 == pmid
                && c.checking_pieces@ == cmid && c.board@ == bmid);
            assert(c.caches_fresh_for(false)) by {
                assert forall|i: u64| i < 64 implies (#[trigger] bit_set(c.attack_bb(false).0, i)
                    <==> attack_mark(c.board@, false, i as int)) by {
                    assert(bit_set(amid, i) <==> attack_mark(bmid, false, i as int));
                }
                assert forall|i: u64| i < 64 implies (#[trigger] bit_set(c.pins_bb(false).0, i)
                    <==> pinned_mark(c.board@, false, i as int)) by {
                    assert(bit_set(pmid, i) <==> bit_set(0u64, i) || pinned_mark(
                        bmid,
                        false,
                        i as int,
                    ));
                }
                assert(c.checking_pieces@ == checkers(c.board@, false));
            }
        }
        c
    }

    /// The state mutation of a move: board, rights, en-passant target and
    /// king caches take their new values; the attack, pin and check boards,
    /// the turn and the bookkeeping fields are untouched.
    #[verifier::rlimit(100)]
    #[verifier::spinoff_prover]
    fn apply_state(&mut self, from: u8, to: u8) -> (r: ChessMove)
        requires
            old(self).wf(),
            from < 64,
            to < 64,
            old(self).board@[from as int] == Piece::Wpawn ==> to < from,
            old(self).board@[from as int] == Piece::Bpawn ==> from < to,
            old(self).board@[from as int] != Piece::Empty,
            is_white_p(old(self).board@[from as int]) == old(self).is_white_turn,
        ensures
            final(self).board@ == apply_core(old(self).state(), from as int, to as int).board,
            final(self).castling == apply_core(old(self).state(), from as int, to as int).castling,
            final(self).en_passant == apply_core(
                old(self).state(),
                from as int,
                to as int,
            ).en_passant,
            final(self).white_king == apply_core(
                old(self).state(),
                from as int,
                to as int,
            ).white_king,
            final(self).black_king == apply_core(
                old(self).state(),
                from as int,
                to as int,
            ).black_king,
            final(self).is_white_turn == old(self).is_white_turn,
            r == make_record(old(self).state(), from as int, to as int),
            final(self).white_attack == old(self).white_attack,
            final(self).black_attack == old(self).black_attack,
            final(self).white_pins == old(self).white_pins,
            final(self).black_pins == old(self).black_pins,
            final(self).checking_pieces@ == old(self).checking_pieces@,
            final(self).moves@ == old(self).moves@,
            final(self).knight_moves@ == old(self).knight_moves@,
            final(self).pawn_moves@ == old(self).pawn_moves@,
            final(self).king_moves@ == old(self).king_moves@,
            final(self).last_move == old(self).last_move,
    {
        let ghost c0 = old(self).state();
        let king_loc_pre: u8 = if self.is_white_turn {
            self.white_king
        } else {
            self.black_king
        };
        let piece: Piece = self.board[from as usize];
        let mut captured: Piece = self.board[to as usize];
        let mut ep_flag: bool = false;
        if piece == Piece::Wpawn && to == self.en_passant {
            proof {
                assert(16 <= to < 24);
            }
            ep_flag = true;
            captured = Piece::Bpawn;
            self.board[(to + 8) as usize] = Piece::Empty;
        } else if piece == Piece::Bpawn && to == self.en_passant {
            proof {
                assert(40 <= to < 48);
            }
            ep_flag = true;
            captured = Piece::Wpawn;
            self.board[(to - 8) as usize] = Piece::Empty;
        }
        let prior_castling: CastlingRights = self.castling;
        let prior_en_passant: u8 = self.en_passant;
        self.en_passant = 64;
        if piece == Piece::Wpawn {
            if from - to == 16 {
                self.en_passant = to + 8;
            }
        } else if piece == Piece::Bpawn {
            if to - from == 16 {
                self.en_passant = to - 8;
            }
        }
        let moved: Piece = if piece == Piece::Wpawn && to < 8 {
            Piece::Wqueen
        } else if piece == Piece::Bpawn && to >= 56 {
            Piece::Bqueen
        } else {
            piece
        };
        self.board[from as usize] = Piece::Empty;
        self.board[to as usize] = moved;
        let mut castle_flag: bool = false;
        if piece == Piece::Bking && from == 4 && to == 6 {
            self.board[7] = Piece::Empty;
            self.board[5] = Piece::Brook;
            castle_flag = true;
        } else if piece == Piece::Bking && from == 4 && to == 2 {
            self.board[0] = Piece::Empty;
            self.board[3] = Piece::Brook;
            castle_flag = true;
        } else if piece == Piece::Wking && from == 60 && to == 62 {
            self.board[63] = Piece::Empty;
            self.board[61] = Piece::Wrook;
            castle_flag = true;
        } else if piece == Piece::Wking && from == 60 && to == 58 {
            self.board[56] = Piece::Empty;
            self.board[59] = Piece::Wrook;
            castle_flag = true;
        }
        proof {
            assert(self.board@ =~= apply_board(c0, from as int, to as int));
        }
        // a right survives only while its king and rook still stand home
        self.castling = CastlingRights {
            wk: self.castling.wk && self.board[60] == Piece::Wking && self.board[63]
                == Piece::Wrook,
            wq: self.castling.wq && self.board[60] == Piece::Wking && self.board[56]
                == Piece::Wrook,
            bk: self.castling.bk && self.board[4] == Piece::Bking && self.board[7] == Piece::Brook,
            bq: self.castling.bq && self.board[4] == Piece::Bking && self.board[0] == Piece::Brook,
        };
        if piece == Piece::Wking {
            self.white_king = to;
        } else if piece == Piece::Bking {
            self.black_king = to;
        }
        let promotion_flag: bool = (piece == Piece::Wpawn && to < 8) || (piece == Piece::Bpawn
            && to >= 56);
        ChessMove {
            from,
            to,
            castle_flag,
            en_passant_flag: ep_flag,
            promotion_flag,
            captured_piece: captured,
            last_king_placement: king_loc_pre,
            prior_castling,
            prior_en_passant,
        }
    }

    /// Apply the move `(from, to)`, which must be legal, and return the
    /// record its undo needs.  The board, rights, en-passant target and king
    /// caches take their new values, the mover's attack, pin and check boards
    /// are recomputed, and the turn flips.
    #[verifier::rlimit(100)]
    pub fn move_piece(&mut self, from: u8, to: u8) -> (r: ChessMove)
        requires
            old(self).wf(),
            is_move(old(self).state(), from as int, to as int),
        ensures
            final(self).state() == apply_core(old(self).state(), from as int, to as int),
            r == make_record(old(self).state(), from as int, to as int),
            final(self).wf(),
            final(self).fresh(),
            final(self).moves@ == old(self).moves@,
            final(self).last_move == (from, to),
            // the non-mover's boards stay one ply stale, untouched
            final(self).attack_bb(!old(self).is_white_turn) == old(self).attack_bb(
                !old(self).is_white_turn,
            ),
            final(self).pins_bb(!old(self).is_white_turn) == old(self).pins_bb(
                !old(self).is_white_turn,
            ),
    {
        let ghost c0 = old(self).state();
        proof {
            crate::model::lemma_apply_wf(c0, from as int, to as int);
            crate::model::lemma_pawn_dir(c0, from as int, to as int);
        }
        let rec = self.apply_state(from, to);
        // the mover's pins are about to be recomputed from scratch
        if self.is_white_turn {
            self.white_pins = Bitboard::empty();
        } else {
            self.black_pins = Bitboard::empty();
        }
        self.update_attacked_squares();
        let ghost w0 = c0.white_turn;
        let ghost amid = self.attack_bb(c0.white_turn).0;
        let ghost pmid = self.pins_bb(c0.white_turn).0;
        let ghost cmid = self.checking_pieces@;
        let ghost bmid = self.board@;
        self.is_white_turn = !self.is_white_turn;
        self.last_move = (from, to);
        proof {
            crate::bitboard::lemma_bits_zero();
            assert(self.state() == apply_core(c0, from as int, to as int));
            assert(self.attack_bb(w0).0 == amid && self.pins_bb(w0).0 == pmid
                && self.checking_pieces@ == cmid && self.board@ == bmid);
            assert(!self.is_white_turn == w0);
            assert(self.caches_fresh_for(w0)) by {
                assert forall|i: u64| i < 64 implies (#[trigger] bit_set(self.attack_bb(w0).0, i)
                    <==> attack_mark(self.board@, w0, i as int)) by {
                    assert(bit_set(amid, i) <==> attack_mark(bmid, w0, i as int));
                }
                assert forall|i: u64| i < 64 implies (#[trigger] bit_set(self.pins_bb(w0).0, i)
                    <==> pinned_mark(self.board@, w0, i as int)) by {
                    assert(bit_set(pmid, i) <==> bit_set(0u64, i) || pinned_mark(
                        bmid,
                        w0,
                        i as int,
                    ));
                }
                assert(self.checking_pieces@ == checkers(self.board@, w0));
            }
        }
        rec
    }

    /// Restore the position that `chess_move` was produced from: the exact
    /// inverse of the corresponding `move_piece` on the game state.  The
    /// attack, pin and check boards are deliberately not restored; the next
    /// move application recomputes them.
    #[verifier::rlimit(100)]
    pub fn undo_move(&mut self, chess_move: ChessMove)
        requires
            old(self).tables_ok(),
            exists|p: GameCore, f: int, t: int|
                #[trigger] wf(p) && #[trigger] is_move(p, f, t) && old(self).state() == apply_core(
                    p,
                    f,
                    t,
                ) && chess_move == make_record(p, f, t),
        ensures
            final(self).state() == undo_core(old(self).state(), chess_move),
            forall|p: GameCore, f: int, t: int|
                (#[trigger] wf(p) && #[trigger] is_move(p, f, t) && old(self).state()
                    == apply_core(p, f, t) && chess_move == make_record(p, f, t)) ==> final(self).state() == p,
            final(self).wf(),
            final(self).white_attack == old(self).white_attack,
            final(self).black_attack == old(self).black_attack,
            final(self).white_pins == old(self).white_pins,
            final(self).black_pins == old(self).black_pins,
            final(self).checking_pieces@ == old(self).checking_pieces@,
            final(self).moves@ == old(self).moves@,
            final(self).last_move == old(self).last_move,
    {
        let ghost (p0, f0, t0) = choose|p: GameCore, f: int, t: int|
            #[trigger] wf(p) && #[trigger] is_move(p, f, t) && old(self).state() == apply_core(
                p,
                f,
                t,
            ) && chess_move == make_record(p, f, t);
        proof {
            crate::model::lemma_move_neq(p0, f0, t0);
            crate::model::lemma_apply_undo(p0, f0, t0);
            assert(chess_move.from == f0 as u8 && chess_move.to == t0 as u8);
            assert(0 <= f0 < 64 && 0 <= t0 < 64);
            if chess_move.en_passant_flag {
                assert(t0 == p0.en_passant);
                assert(p0.white_turn ==> 16 <= t0 < 24);
                assert(!p0.white_turn ==> 40 <= t0 < 48);
            }
            if chess_move.castle_flag {
                assert(t0 == 6 || t0 == 2 || t0 == 62 || t0 == 58);
            }
        }
        let from: u8 = chess_move.from;
        let to: u8 = chess_move.to;
        self.board[from as usize] = self.board[to as usize];
        self.board[to as usize] = chess_move.captured_piece;
        self.castling = chess_move.prior_castling;
        self.en_passant = chess_move.prior_en_passant;
        self.is_white_turn = !self.is_white_turn;
        let mover_white: bool = self.is_white_turn;
        if chess_move.promotion_flag {
            self.board[from as usize] = if mover_white {
                Piece::Wpawn
            } else {
                Piece::Bpawn
            };
        }
        if chess_move.castle_flag {
            if to == 62 {
                self.board[61] = Piece::Empty;
                self.board[63] = Piece::Wrook;
            } else if to == 58 {
                self.board[59] = Piece::Empty;
                self.board[56] = Piece::Wrook;
            } else if to == 6 {
                self.board[5] = Piece::Empty;
                self.board[7] = Piece::Brook;
            } else {
                self.board[3] = Piece::Empty;
                self.board[0] = Piece::Brook;
            }
        }
        if chess_move.en_passant_flag {
            self.board[to as usize] = Piece::Empty;
            if mover_white {
                self.board[(to + 8) as usize] = Piece::Bpawn;
            } else {
                self.board[(to - 8) as usize] = Piece::Wpawn;
            }
        }
        if mover_white {
            self.white_king = chess_move.last_king_placement;
        } else {
            self.black_king = chess_move.last_king_placement;
        }
        proof {
            assert(self.board@ =~= undo_core(old(self).state(), chess_move).board);
            assert(self.state() == undo_core(old(self).state(), chess_move));
            assert(self.state() == p0);
            assert forall|p: GameCore, f: int, t: int|
                (#[trigger] wf(p) && #[trigger] is_move(p, f, t) && old(self).state()
                    == apply_core(p, f, t) && chess_move == make_record(p, f, t)) implies self.state()
                == p by {
                crate::model::lemma_apply_undo(p, f, t);
            }
        }
    }

    /// Draw by insufficient material is not detected: the classifier reports
    /// it as never holding.
    pub fn is_insufficient_material(&self) -> (r: bool)
        ensures
            r == false,
    {
        false
    }

    /// Draw by threefold repetition is not detected: the classifier reports
    /// it as never holding.
    pub fn is_threefold_repetition(&self) -> (r: bool)
        ensures
            r == false,
    {
        false
    }

    /// The terminal-state classifier: -1 when white is checkmated, 1 when
    /// black is checkmated, 0 for stalemate, 2 for an ongoing game.
    pub fn is_ending(&self) -> (r: i32)
        requires
            self.wf(),
            self.fresh(),
        ensures
            r as int == ending_spec(self.state()),
    {
        let ghost c = self.state();
        let moves = self.get_all_moves();
        if moves.len() == 0 {
            proof {
                if crate::ai::has_move(c) {
                    let (f, t) = choose|f: int, t: int| is_move(c, f, t);
                    assert(moves@.contains((f as u8, t as u8)));
                    assert(false);
                }
            }
            if self.is_check(self.king_loc()) {
                if self.is_white_turn {
                    -1
                } else {
                    1
                }
            } else {
                0
            }
        } else {
            proof {
                let m = moves@[0];
                assert(moves@.contains(m));
                assert(is_move(c, m.0 as int, m.1 as int));
            }
            if self.is_insufficient_material() {
                3
            } else if self.is_threefold_repetition() {
                4
            } else {
                2
            }
        }
    }

    /// Build a position from its parts, for analysis and tests.  Succeeds
    /// exactly when the parts are consistent: 64 squares, the king caches
    /// pointing at the kings, and an en-passant target that matches a pawn
    /// that just double-pushed.  The opponent's attack set is computed so the
    /// caches are fresh for the side to move.
    pub fn from_setup(
        board: Vec<Piece>,
        is_white_turn: bool,
        castling: CastlingRights,
        en_passant: u8,
        white_king: u8,
        black_king: u8,
    ) -> (r: Option<Chess>)
        ensures
            r is Some <==> setup_ok(board@, is_white_turn, en_passant, white_king, black_king),
            r matches Some(c) ==> c.state() == (GameCore {
                board: board@,
                castling: castling,
                en_passant: en_passant,
                white_turn: is_white_turn,
                white_king: white_king,
                black_king: black_king,
            }) && c.wf() && c.fresh(),
    {
        if board.len() != 64 || white_king >= 64 || black_king >= 64 {
            return None;
        }
        if !(board[white_king as usize] == Piece::Wking && board[black_king as usize]
            == Piece::Bking) {
            return None;
        }
        let ep_fine: bool = if en_passant == 64 {
            true
        } else if is_white_turn {
            16 <= en_passant && en_passant < 24 && board[en_passant as usize] == Piece::Empty
                && board[(en_passant + 8) as usize] == Piece::Bpawn
        } else {
            40 <= en_passant && en_passant < 48 && board[en_passant as usize] == Piece::Empty
                && board[(en_passant - 8) as usize] == Piece::Wpawn
        };
        if !ep_fine {
            return None;
        }
        let mut c = Chess {
            board,
            moves: Vec::new(),
            castling,
            en_passant,
            is_white_turn: !is_white_turn,
            white_king,
            black_king,
            white_attack: Bitboard::empty(),
            black_attack: Bitboard::empty(),
            white_pins: Bitboard::empty(),
            black_pins: Bitboard::empty(),
            checking_pieces: Vec::new(),
            knight_moves: Chess::precompute_knight(),
            pawn_moves: Chess::precompute_pawn(),
            king_moves: Chess::precompute_king(),
            last_move: (64, 64),
        };
        // the opponent is treated as having just moved: its attack set, pins
        // and checking pieces are computed, then the turn is handed over
        c.update_attacked_squares();
        let ghost opp: bool = !is_white_turn;
        let ghost amid = c.attack_bb(opp).0;
        let ghost pmid = c.pins_bb(opp).0;
        let ghost cmid = c.checking_pieces@;
        let ghost bmid = c.board@;
        c.is_white_turn = is_white_turn;
        proof {
            crate::bitboard::lemma_bits_zero();
            assert(c.attack_bb(opp).0 == amid && c.pins_bb(opp).0 == pmid && c.checking_pieces@
                == cmid && c.board@ == bmid);
            assert(c.caches_fresh_for(opp)) by {
                assert forall|i: u64| i < 64 implies (#[trigger] bit_set(c.attack_bb(opp).0, i)
                    <==> attack_mark(c.board@, opp, i as int)) by {
                    assert(bit_set(amid, i) <==> attack_mark(bmid, opp, i as int));
                }
                assert forall|i: u64| i < 64 implies (#[trigger] bit_set(c.pins_bb(opp).0, i)
                    <==> pinned_mark(c.board@, opp, i as int)) by {
                    assert(bit_set(pmid, i) <==> bit_set(0u64, i) || pinned_mark(
                        bmid,
                        opp,
                        i as int,
                    ));
                }
                assert(c.checking_pieces@ == checkers(c.board@, opp));
            }
        }
        Some(c)
    }
}

/// The parts of a position are consistent with each other.
pub open spec fn setup_ok(
    board: Seq<Piece>,
    white_turn: bool,
    ep: u8,
    wk: u8,
    bk: u8,
) -> bool {
    &&& board.len() == 64
    &&& wk < 64
    &&& bk < 64
    &&& board[wk as int] == Piece::Wking
    &&& board[bk as int] == Piece::Bking
    &&& {
        ||| ep == 64
        ||| (white_turn && 16 <= ep < 24 && board[ep as int] == Piece::Empty && board[ep as int
            + 8] == Piece::Bpawn)
        ||| (!white_turn && 40 <= ep < 48 && board[ep as int] == Piece::Empty && board[ep as int
            - 8] == Piece::Wpawn)
    }
}

/// The terminal-state classifier's value: -1 white is mated, 1 black is
/// mated, 0 stalemate, 2 ongoing (insufficient material and repetition are
/// never reported).
pub open spec fn ending_spec(c: GameCore) -> int {
    if !crate::ai::has_move(c) {
        if in_check_now(c) {
            if c.white_turn {
                -1
            } else {
                1
            }
        } else {
            0
        }
    } else {
        2
    }
}

} // verus!
