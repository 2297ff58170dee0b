//! Fixed-depth negamax search with alpha-beta pruning over the move
//! generator and applier, bottoming out in a material evaluator.

use vstd::prelude::*;
use crate::attacks::{material, material_upto};
use crate::chess::Chess;
use crate::model::{apply_core, in_check_now, is_move, wf, GameCore};
use crate::piece::{piece_value, Piece};

verus! {

/// Scores are centipawns; this bound exceeds any material total and stands
/// for "forced loss" when returned with a minus sign.
pub const INFINITY_SCORE: i32 = 1000000;

/// Static evaluation: the signed material sum, from the mover's perspective.
pub open spec fn eval_spec(c: GameCore) -> int {
    if c.white_turn {
        material(c.board)
    } else {
        -material(c.board)
    }
}

/// Some legal move exists for the side to move.
pub open spec fn has_move(c: GameCore) -> bool {
    exists|f: int, t: int| is_move(c, f, t)
}

/// The plain (unpruned) negamax value of a position at the given depth:
/// the material evaluation at depth 0, the mate/stalemate scores when no
/// move exists, and otherwise the maximum over every legal move of the
/// negated value of the resulting position.
pub open spec fn minimax(c: GameCore, depth: nat) -> int
    decreases depth, 4098int,
{
    if depth == 0 {
        eval_spec(c)
    } else if !has_move(c) {
        if in_check_now(c) {
            -(INFINITY_SCORE as int)
        } else {
            0
        }
    } else {
        mm_all(c, 0, depth)
    }
}

/// Maximum of the negated child values over the moves encoded `m..4096`
/// (an encoded move `m` is the pair `m / 64`, `m % 64`).
pub open spec fn mm_all(c: GameCore, m: int, depth: nat) -> int
    decreases depth, 4096 - m,
{
    if m >= 4096 || m < 0 || depth <= 0 {
        -(INFINITY_SCORE as int)
    } else {
        let rest = mm_all(c, m + 1, depth);
        if is_move(c, m / 64, m % 64) {
            let v = -minimax(apply_core(c, m / 64, m % 64), (depth - 1) as nat);
            if v > rest {
                v
            } else {
                rest
            }
        } else {
            rest
        }
    }
}

/// Maximum of the negated child values (at child depth `d`) over the moves
/// of the list from position `i` on.
pub open spec fn seq_best(c: GameCore, ms: Seq<(u8, u8)>, i: int, d: nat) -> int
    decreases ms.len() - i,
{
    if i < 0 || i >= ms.len() {
        -(INFINITY_SCORE as int)
    } else {
        let v = -minimax(apply_core(c, ms[i].0 as int, ms[i].1 as int), d);
        let rest = seq_best(c, ms, i + 1, d);
        if v > rest {
            v
        } else {
            rest
        }
    }
}

pub proof fn lemma_material_bound(b: Seq<Piece>, n: int)
    requires
        0 <= n <= 64,
    ensures
        -900 * n <= material_upto(b, n) <= 900 * n,
    decreases n,
{
    if n > 0 {
        lemma_material_bound(b, n - 1);
    }
}

/// Negamax values always stay within the infinity bound.
pub proof fn lemma_minimax_bounds(c: GameCore, depth: nat)
    ensures
        -(INFINITY_SCORE as int) <= minimax(c, depth) <= INFINITY_SCORE as int,
    decreases depth, 4098int,
{
    if depth == 0 {
        lemma_material_bound(c.board, 64);
    } else if has_move(c) {
        lemma_mm_all_bounds(c, 0, depth);
    }
}

pub proof fn lemma_mm_all_bounds(c: GameCore, m: int, depth: nat)
    ensures
        -(INFINITY_SCORE as int) <= mm_all(c, m, depth) <= INFINITY_SCORE as int,
    decreases depth, 4096 - m,
{
    if m < 4096 && m >= 0 && depth > 0 {
        lemma_mm_all_bounds(c, m + 1, depth);
        if is_move(c, m / 64, m % 64) {
            lemma_minimax_bounds(apply_core(c, m / 64, m % 64), (depth - 1) as nat);
        }
    }
}

/// The enumerated maximum dominates the value of any single legal move.
pub proof fn lemma_mm_all_ge(c: GameCore, m: int, depth: nat, f: int, t: int)
    requires
        depth > 0,
        is_move(c, f, t),
        0 <= m <= f * 64 + t,
    ensures
        mm_all(c, m, depth) >= -minimax(apply_core(c, f, t), (depth - 1) as nat),
    decreases f * 64 + t - m,
{
    let e = f * 64 + t;
    assert(0 <= f < 64 && 0 <= t < 64);
    assert(e < 4096);
    if m == e {
        assert(e / 64 == f && e % 64 == t);
    } else {
        lemma_mm_all_ge(c, m + 1, depth, f, t);
    }
}

/// The listed maximum dominates the value of any listed move.
pub proof fn lemma_seq_best_ge(c: GameCore, ms: Seq<(u8, u8)>, i: int, d: nat, j: int)
    requires
        0 <= i <= j < ms.len(),
    ensures
        seq_best(c, ms, i, d) >= -minimax(apply_core(c, ms[j].0 as int, ms[j].1 as int), d),
    decreases j - i,
{
    if i < j {
        lemma_seq_best_ge(c, ms, i + 1, d, j);
    }
}

pub proof fn lemma_seq_best_bounds(c: GameCore, ms: Seq<(u8, u8)>, i: int, d: nat)
    ensures
        -(INFINITY_SCORE as int) <= seq_best(c, ms, i, d) <= INFINITY_SCORE as int,
    decreases ms.len() - i,
{
    if 0 <= i < ms.len() {
        lemma_seq_best_bounds(c, ms, i + 1, d);
        lemma_minimax_bounds(apply_core(c, ms[i].0 as int, ms[i].1 as int), d);
    }
}

/// Every enumerated move value is dominated by the listed maximum, so the
/// enumerated maximum is too.
pub proof fn lemma_mm_all_le(c: GameCore, ms: Seq<(u8, u8)>, m: int, depth: nat)
    requires
        depth > 0,
        forall|f: u8, t: u8|
            f < 64 && t < 64 ==> (#[trigger] ms.contains((f, t)) <==> is_move(c, f as int, t as int)),
    ensures
        mm_all(c, m, depth) <= seq_best(c, ms, 0, (depth - 1) as nat),
    decreases 4096 - m,
{
    lemma_seq_best_bounds(c, ms, 0, (depth - 1) as nat);
    if 0 <= m < 4096 {
        lemma_mm_all_le(c, ms, m + 1, depth);
        let f = m / 64;
        let t = m % 64;
        if is_move(c, f, t) {
            assert(0 <= f < 64 && 0 <= t < 64);
            assert(ms.contains((f as u8, t as u8)));
            let j = choose|j: int| 0 <= j < ms.len() && ms[j] == (f as u8, t as u8);
            lemma_seq_best_ge(c, ms, 0, (depth - 1) as nat, j);
        }
    }
}

/// Every listed move value is dominated by the enumerated maximum, so the
/// listed maximum is too.
pub proof fn lemma_seq_best_le(c: GameCore, ms: Seq<(u8, u8)>, i: int, depth: nat)
    requires
        depth > 0,
        forall|f: u8, t: u8|
            f < 64 && t < 64 ==> (#[trigger] ms.contains((f, t)) <==> is_move(c, f as int, t as int)),
        forall|j: int| 0 <= j < ms.len() ==> (#[trigger] ms[j]).0 < 64 && ms[j].1 < 64,
        0 <= i,
    ensures
        seq_best(c, ms, i, (depth - 1) as nat) <= mm_all(c, 0, depth),
    decreases ms.len() - i,
{
    lemma_mm_all_bounds(c, 0, depth);
    if i < ms.len() {
        lemma_seq_best_le(c, ms, i + 1, depth);
        let f = ms[i].0 as int;
        let t = ms[i].1 as int;
        assert(ms.contains((ms[i].0, ms[i].1)));
        assert(is_move(c, f, t));
        lemma_mm_all_ge(c, 0, depth, f, t);
    }
}

/// The maximum over the generated move list equals the maximum over the
/// enumeration of all encoded moves: the search may visit moves in any order.
pub proof fn lemma_best_eq(c: GameCore, ms: Seq<(u8, u8)>, depth: nat)
    requires
        depth > 0,
        forall|f: u8, t: u8|
            f < 64 && t < 64 ==> (#[trigger] ms.contains((f, t)) <==> is_move(c, f as int, t as int)),
        forall|j: int| 0 <= j < ms.len() ==> (#[trigger] ms[j]).0 < 64 && ms[j].1 < 64,
    ensures
        seq_best(c, ms, 0, (depth - 1) as nat) == mm_all(c, 0, depth),
{
    lemma_mm_all_le(c, ms, 0, depth);
    lemma_seq_best_le(c, ms, 0, depth);
}

/// A move list with the legality characterization is empty exactly when the
/// position has no legal move.
pub proof fn lemma_moves_empty(c: GameCore, ms: Seq<(u8, u8)>)
    requires
        forall|f: u8, t: u8|
            f < 64 && t < 64 ==> (#[trigger] ms.contains((f, t)) <==> is_move(c, f as int, t as int)),
        forall|j: int| 0 <= j < ms.len() ==> (#[trigger] ms[j]).0 < 64 && ms[j].1 < 64,
    ensures
        ms.len() == 0 <==> !has_move(c),
{
    if ms.len() > 0 {
        let m = ms[0];
        assert(ms.contains(m));
        assert(is_move(c, m.0 as int, m.1 as int));
    } else if has_move(c) {
        let (f, t) = choose|f: int, t: int| is_move(c, f, t);
        assert(0 <= f < 64 && 0 <= t < 64);
        assert(ms.contains((f as u8, t as u8)));
        assert(false);
    }
}

/// Alpha-beta equivalence: a value that satisfies the fail-hard search
/// guarantees on the full window is the plain negamax value itself.
pub proof fn lemma_full_window_equiv(c: GameCore, depth: nat, r: int)
    requires
        -(INFINITY_SCORE as int) <= r <= INFINITY_SCORE as int,
        r <= -(INFINITY_SCORE as int) ==> minimax(c, depth) <= r,
        -(INFINITY_SCORE as int) < r < INFINITY_SCORE as int ==> r == minimax(c, depth),
        r >= INFINITY_SCORE as int ==> minimax(c, depth) >= r,
    ensures
        r == minimax(c, depth),
{
    lemma_minimax_bounds(c, depth);
}

/// Which side a human plays against the engine, or a random choice.
#[derive(PartialEq, Clone, Copy, Debug)]
pub enum BlackWhite {
    Black,
    White,
    Random,
}

/// The search engine: a fixed search depth and no other state.
#[derive(Debug, Clone)]
pub struct AI {
    pub depth: i32,
}

impl AI {
    pub fn new(depth: i32) -> (r: Self)
        requires
            1 <= depth,
        ensures
            r.depth == depth,
    {
        AI { depth }
    }

    /// The material evaluation of the position, from the mover's side.
    pub fn eval(&self, chess: &Chess) -> (r: i32)
        requires
            chess.board@.len() == 64,
        ensures
            r as int == eval_spec(chess.state()),
    {
        let ghost b = chess.board@;
        let mut e: i32 = 0;
        for i in 0..64usize
            invariant
                b == chess.board@,
                b.len() == 64,
                e as int == material_upto(b, i as int),
                -57600 <= e <= 57600,
        {
            proof {
                lemma_material_bound(b, i as int);
            }
            e = e + chess.board[i].evaluate();
        }
        if chess.is_white_turn {
            e
        } else {
            -e
        }
    }

    /// Fail-hard negamax with alpha-beta pruning.  The result `r` carries the
    /// classic guarantees relative to the plain negamax value `v`:
    /// `r <= alpha` implies `v <= r`, a result strictly inside the window
    /// equals `v`, and `r >= beta` implies `v >= r`.  The position is left
    /// with its game state intact (the caches of the non-mover are stale, as
    /// after any undo).
    #[verifier::rlimit(100)]
    pub fn search(&self, depth: i32, alpha: i32, beta: i32, chess: &mut Chess) -> (r: i32)
        requires
            old(chess).wf(),
            old(chess).fresh(),
            0 <= depth,
            -INFINITY_SCORE <= alpha < beta <= INFINITY_SCORE,
        ensures
            final(chess).state() == old(chess).state(),
            final(chess).wf(),
            -INFINITY_SCORE <= r <= INFINITY_SCORE,
            r <= alpha ==> minimax(old(chess).state(), depth as nat) <= r,
            alpha < r < beta ==> r as int == minimax(old(chess).state(), depth as nat),
            r >= beta ==> minimax(old(chess).state(), depth as nat) >= r,
            depth == 0 ==> r as int == eval_spec(old(chess).state()),
            depth > 0 && !has_move(old(chess).state()) ==> r as int == (if in_check_now(
                old(chess).state(),
            ) {
                -(INFINITY_SCORE as int)
            } else {
                0
            }),
        decreases depth,
    {
        let ghost c = old(chess).state();
        if depth == 0 {
            let e = self.eval(chess);
            proof {
                lemma_material_bound(c.board, 64);
            }
            return e;
        }
        let moves = chess.get_all_moves();
        proof {
            lemma_moves_empty(c, moves@);
        }
        if moves.len() == 0 {
            if chess.is_check(chess.king_loc()) {
                return -INFINITY_SCORE;
            }
            return 0;
        }
        proof {
            lemma_best_eq(c, moves@, depth as nat);
        }
        let ghost d1 = (depth - 1) as nat;
        let n: usize = moves.len();
        let mut alpha_cur: i32 = alpha;
        let mut k: usize = 0;
        while k < n
            invariant
                c == old(chess).state(),
                has_move(c),
                wf(c),
                chess.wf(),
                chess.fresh() || k > 0,
                chess.state() == c,
                n == moves@.len(),
                n > 0,
                0 < depth,
                d1 == (depth - 1) as nat,
                -INFINITY_SCORE <= alpha < beta <= INFINITY_SCORE,
                k <= n,
                alpha <= alpha_cur < beta,
                forall|j: int|
                    0 <= j < moves@.len() ==> (#[trigger] moves@[j]).0 < 64 && moves@[j].1 < 64,
                forall|f: u8, t: u8|
                    f < 64 && t < 64 ==> (#[trigger] moves@.contains((f, t)) <==> is_move(
                        c,
                        f as int,
                        t as int,
                    )),
                seq_best(c, moves@, 0, d1) == mm_all(c, 0, depth as nat),
                minimax(c, depth as nat) == seq_best(c, moves@, 0, d1),
                alpha_cur as int == (if seq_best_prefix(c, moves@, k as int, d1) > alpha as int {
                    seq_best_prefix(c, moves@, k as int, d1)
                } else {
                    alpha as int
                }),
                seq_best_prefix(c, moves@, k as int, d1) < beta as int,
            decreases n - k,
        {
            let mv = moves[k];
            let f = mv.0;
            let t = mv.1;
            proof {
                assert(moves@[k as int] == mv);
                assert(mv == (f, t));
                assert(moves@.contains((f, t)));
                assert(is_move(c, f as int, t as int));
                crate::model::lemma_apply_wf(c, f as int, t as int);
            }
            let rec = chess.move_piece(f, t);
            let ghost cc = apply_core(c, f as int, t as int);
            let sub = self.search(depth - 1, -beta, -alpha_cur, chess);
            let eval_v: i32 = -sub;
            chess.undo_move(rec);
            proof {
                assert(chess.state() == c);
                lemma_minimax_bounds(cc, d1);
                lemma_prefix_step(c, moves@, k as int, d1);
                assert(moves@[k as int] == (f, t));
            }
            if eval_v >= beta {
                // beta cutoff: this move already guarantees at least beta
                proof {
                    assert(sub <= -beta);
                    assert(minimax(cc, d1) <= sub as int);
                    assert(-minimax(cc, d1) >= beta as int);
                    lemma_seq_best_ge(c, moves@, 0, d1, k as int);
                    assert(minimax(c, depth as nat) >= beta as int);
                }
                return beta;
            }
            proof {
                // the child value seen is the true value clamped to the window
                if eval_v > alpha_cur {
                    assert(-beta < sub < -alpha_cur);
                    assert(sub as int == minimax(cc, d1));
                    assert(eval_v as int == -minimax(cc, d1));
                } else {
                    assert(sub >= -alpha_cur);
                    assert(minimax(cc, d1) >= sub as int);
                    assert(-minimax(cc, d1) <= eval_v as int);
                    assert(-minimax(cc, d1) <= alpha_cur as int);
                }
                assert(-minimax(cc, d1) < beta as int);
            }
            if eval_v > alpha_cur {
                alpha_cur = eval_v;
            }
            k = k + 1;
        }
        proof {
            lemma_prefix_full(c, moves@, d1);
        }
        alpha_cur
    }

    /// The engine's move: the legal move whose depth-limited negamax value is
    /// maximal (the first such move in generation order); the sentinel pair
    /// (64, 64) when the mover has no legal move.  The game state is left
    /// intact, but the attack and pin caches are stale and must be
    /// recomputed before they are next consulted.
    pub fn best_move(&self, chess: &mut Chess) -> (r: (u8, u8))
        requires
            old(chess).wf(),
            old(chess).fresh(),
            1 <= self.depth,
        ensures
            final(chess).state() == old(chess).state(),
            final(chess).wf(),
            !has_move(old(chess).state()) ==> r == (64u8, 64u8),
            has_move(old(chess).state()) ==> is_move(old(chess).state(), r.0 as int, r.1 as int)
                && -minimax(
                apply_core(old(chess).state(), r.0 as int, r.1 as int),
                (self.depth - 1) as nat,
            ) == minimax(old(chess).state(), self.depth as nat),
            // ties keep the earliest move: no maximizing move starts on an
            // earlier square than the returned one
            has_move(old(chess).state()) ==> forall|f: int, t: int|
                #[trigger] is_move(old(chess).state(), f, t) && -minimax(
                    apply_core(old(chess).state(), f, t),
                    (self.depth - 1) as nat,
                ) == minimax(old(chess).state(), self.depth as nat) ==> r.0 as int <= f,
    {
        let ghost c = old(chess).state();
        let moves = chess.get_all_moves();
        proof {
            lemma_moves_empty(c, moves@);
            if moves@.len() > 0 {
                lemma_best_eq(c, moves@, self.depth as nat);
            }
        }
        let ghost d1 = (self.depth - 1) as nat;
        let mut best: (u8, u8) = (64, 64);
        let mut max: i32 = -INFINITY_SCORE;
        let mut have: bool = false;
        let n: usize = moves.len();
        let mut k: usize = 0;
        while k < n
            invariant
                wf(c),
                chess.wf(),
                chess.state() == c,
                1 <= self.depth,
                d1 == (self.depth - 1) as nat,
                n == moves@.len(),
                k <= n,
                forall|j: int|
                    0 <= j < moves@.len() ==> (#[trigger] moves@[j]).0 < 64 && moves@[j].1 < 64,
                forall|f: u8, t: u8|
                    f < 64 && t < 64 ==> (#[trigger] moves@.contains((f, t)) <==> is_move(
                        c,
                        f as int,
                        t as int,
                    )),
                have <==> k > 0,
                !have ==> best == (64u8, 64u8) && max == -INFINITY_SCORE,
                have ==> moves@.contains(best) && max as int == -minimax(
                    apply_core(c, best.0 as int, best.1 as int),
                    d1,
                ) && max as int == seq_best_prefix(c, moves@, k as int, d1),
                -INFINITY_SCORE <= max <= INFINITY_SCORE,
                forall|j1: int, j2: int|
                    0 <= j1 < j2 < moves@.len() ==> (#[trigger] moves@[j1]).0 <= (
                    #[trigger] moves@[j2]).0,
                have ==> exists|j0: int| 0 <= j0 < k && #[trigger] moves@[j0] == best,
                have ==> forall|j: int|
                    0 <= j < k && -minimax(
                        apply_core(c, (#[trigger] moves@[j]).0 as int, moves@[j].1 as int),
                        d1,
                    ) == max as int ==> best.0 <= moves@[j].0,
            decreases n - k,
        {
            let mv = moves[k];
            let f = mv.0;
            let t = mv.1;
            proof {
                assert(moves@[k as int] == mv);
                assert(mv == (f, t));
                assert(moves@.contains((f, t)));
                assert(is_move(c, f as int, t as int));
                crate::model::lemma_apply_wf(c, f as int, t as int);
            }
            let rec = chess.move_piece(f, t);
            let ghost cc = apply_core(c, f as int, t as int);
            let sub = self.search(self.depth - 1, -INFINITY_SCORE, INFINITY_SCORE, chess);
            let eval_v: i32 = -sub;
            chess.undo_move(rec);
            proof {
                lemma_minimax_bounds(cc, d1);
                lemma_full_window_equiv(cc, d1, sub as int);
                assert(eval_v as int == -minimax(cc, d1));
                lemma_prefix_step(c, moves@, k as int, d1);
                assert(moves@[k as int] == (f, t));
            }
            let ghost max0 = max as int;
            let ghost best0 = best;
            let ghost have0 = have;
            if !have || eval_v > max {
                max = eval_v;
                best = (f, t);
            }
            have = true;
            proof {
                assert(exists|j0: int| 0 <= j0 < k + 1 && #[trigger] moves@[j0] == best) by {
                    if have0 && eval_v as int <= max0 {
                        let j0 = choose|j0: int| 0 <= j0 < k && #[trigger] moves@[j0] == best0;
                        assert(moves@[j0] == best);
                    } else {
                        assert(moves@[k as int] == best);
                    }
                }
                assert forall|j: int|
                    0 <= j < k + 1 && -minimax(
                        apply_core(c, (#[trigger] moves@[j]).0 as int, moves@[j].1 as int),
                        d1,
                    ) == max as int implies best.0 <= moves@[j].0 by {
                    if have0 && eval_v as int <= max0 {
                        // max and best kept their values
                        if j == k as int {
                            let j0 = choose|j0: int| 0 <= j0 < k && #[trigger] moves@[j0] == best0;
                            assert(moves@[j0].0 <= moves@[k as int].0);
                        }
                    } else {
                        // this move strictly improved the maximum
                        if j < k as int {
                            lemma_prefix_ge_elem(c, moves@, k as int, d1, j);
                            assert(-minimax(
                                apply_core(c, moves@[j].0 as int, moves@[j].1 as int),
                                d1,
                            ) <= max0);
                            assert(false);
                        } else {
                            assert(moves@[k as int] == best);
                        }
                    }
                }
            }
            k = k + 1;
        }
        proof {
            if n > 0 {
                lemma_prefix_full(c, moves@, d1);
                assert(max as int == seq_best(c, moves@, 0, d1));
                assert(minimax(c, self.depth as nat) == mm_all(c, 0, self.depth as nat));
                assert forall|f: int, t: int|
                    #[trigger] is_move(c, f, t) && -minimax(apply_core(c, f, t), d1) == minimax(
                        c,
                        self.depth as nat,
                    ) implies best.0 as int <= f by {
                    assert(0 <= f < 64 && 0 <= t < 64);
                    assert(moves@.contains((f as u8, t as u8)));
                    let j = choose|j: int| 0 <= j < moves@.len() && moves@[j] == (f as u8, t as u8);
                    assert(moves@[j].0 as int == f && moves@[j].1 as int == t);
                    assert(-minimax(
                        apply_core(c, moves@[j].0 as int, moves@[j].1 as int),
                        d1,
                    ) == max as int);
                    assert(best.0 <= moves@[j].0);
                }
            }
        }
        best
    }

    /// The number of leaf nodes of the legal game tree at the given depth:
    /// the perft count, which validates the move generator against known
    /// totals.  The game state is left intact.
    pub fn count_moves(depth: i32, chess: &mut Chess) -> (r: i64)
        requires
            old(chess).wf(),
            old(chess).fresh(),
            0 <= depth <= 5,
        ensures
            final(chess).state() == old(chess).state(),
            final(chess).wf(),
            r as int == perft(old(chess).state(), depth as nat),
        decreases depth,
    {
        let ghost c = old(chess).state();
        proof {
            lemma_perft_bounds(c, depth as nat);
        }
        if depth == 0 {
            return 1;
        }
        let moves = chess.get_all_moves();
        proof {
            lemma_perft_eq(c, moves@, depth as nat);
            lemma_pow4096_bound();
        }
        let ghost d1 = (depth - 1) as nat;
        let mut num: i64 = 0;
        let n: usize = moves.len();
        let mut k: usize = 0;
        while k < n
            invariant
                c == old(chess).state(),
                wf(c),
                chess.wf(),
                chess.fresh() || k > 0,
                chess.state() == c,
                0 < depth <= 5,
                d1 == (depth - 1) as nat,
                n == moves@.len(),
                k <= n,
                forall|j: int|
                    0 <= j < moves@.len() ==> (#[trigger] moves@[j]).0 < 64 && moves@[j].1 < 64,
                forall|f: u8, t: u8|
                    f < 64 && t < 64 ==> (#[trigger] moves@.contains((f, t)) <==> is_move(
                        c,
                        f as int,
                        t as int,
                    )),
                seq_perft(c, moves@, 0, d1) == perft(c, depth as nat),
                perft(c, depth as nat) <= pow4096(depth as nat),
                pow4096(depth as nat) <= 0x1000_0000_0000_0000,
                0 <= num,
                num as int + seq_perft(c, moves@, k as int, d1) == perft(c, depth as nat),
            decreases n - k,
        {
            let mv = moves[k];
            proof {
                assert(moves@[k as int] == mv);
                assert(mv == (mv.0, mv.1));
                assert(moves@.contains((mv.0, mv.1)));
                assert(is_move(c, mv.0 as int, mv.1 as int));
                crate::model::lemma_apply_wf(c, mv.0 as int, mv.1 as int);
            }
            let rec = chess.move_piece(mv.0, mv.1);
            let sub = AI::count_moves(depth - 1, chess);
            chess.undo_move(rec);
            proof {
                lemma_perft_bounds(apply_core(c, mv.0 as int, mv.1 as int), d1);
                lemma_pow4096_mono(d1, depth as nat);
                lemma_seq_perft_nonneg(c, moves@, k as int + 1, d1);
                assert(seq_perft(c, moves@, k as int, d1) == perft(
                    apply_core(c, mv.0 as int, mv.1 as int),
                    d1,
                ) + seq_perft(c, moves@, k as int + 1, d1));
            }
            num = num + sub;
            k = k + 1;
        }
        proof {
            assert(seq_perft(c, moves@, n as int, d1) == 0);
        }
        num
    }
}


/// 4096 to the power `d`: the crude bound on the number of move sequences.
pub open spec fn pow4096(d: nat) -> int
    decreases d,
{
    if d == 0 {
        1
    } else {
        4096 * pow4096((d - 1) as nat)
    }
}

/// The number of legal move sequences of the given depth (the perft count):
/// 1 at depth 0, otherwise the sum over every legal move of the count of the
/// resulting position one shallower.
pub open spec fn perft(c: GameCore, depth: nat) -> int
    decreases depth, 4098int,
{
    if depth == 0 {
        1
    } else {
        perft_all(c, 0, depth)
    }
}

/// The perft sum over the moves encoded `m..4096`.
pub open spec fn perft_all(c: GameCore, m: int, depth: nat) -> int
    decreases depth, 4096 - m,
{
    if m >= 4096 || m < 0 || depth <= 0 {
        0
    } else {
        let rest = perft_all(c, m + 1, depth);
        if is_move(c, m / 64, m % 64) {
            rest + perft(apply_core(c, m / 64, m % 64), (depth - 1) as nat)
        } else {
            rest
        }
    }
}

/// The perft sum over the listed moves from position `i` on, at child depth
/// `d`.
pub open spec fn seq_perft(c: GameCore, ms: Seq<(u8, u8)>, i: int, d: nat) -> int
    decreases ms.len() - i,
{
    if i < 0 || i >= ms.len() {
        0
    } else {
        perft(apply_core(c, ms[i].0 as int, ms[i].1 as int), d) + seq_perft(c, ms, i + 1, d)
    }
}

/// The perft sum over the enumerated moves `m..4096` restricted to those the
/// list holds.
pub open spec fn perft_sel(c: GameCore, m: int, depth: nat, ms: Seq<(u8, u8)>) -> int
    decreases 4096 - m,
{
    if m >= 4096 || m < 0 || depth <= 0 {
        0
    } else {
        let rest = perft_sel(c, m + 1, depth, ms);
        if is_move(c, m / 64, m % 64) && ms.contains(((m / 64) as u8, (m % 64) as u8)) {
            rest + perft(apply_core(c, m / 64, m % 64), (depth - 1) as nat)
        } else {
            rest
        }
    }
}

pub proof fn lemma_perft_bounds(c: GameCore, depth: nat)
    ensures
        0 <= perft(c, depth) <= pow4096(depth),
    decreases depth, 4098int,
{
    if depth > 0 {
        lemma_perft_all_bounds(c, 0, depth);
        assert(4096 * pow4096((depth - 1) as nat) == pow4096(depth));
        assert((4096 - 0) * pow4096((depth - 1) as nat) == 4096 * pow4096((depth - 1) as nat))
            by (nonlinear_arith);
        assert(pow4096(depth) >= 1) by {
            lemma_pow4096_pos(depth);
        }
    }
}

pub proof fn lemma_pow4096_pos(d: nat)
    ensures
        pow4096(d) >= 1,
    decreases d,
{
    if d > 0 {
        lemma_pow4096_pos((d - 1) as nat);
        assert(4096 * pow4096((d - 1) as nat) >= pow4096((d - 1) as nat)) by (nonlinear_arith)
            requires
                pow4096((d - 1) as nat) >= 1,
        ;
    }
}

pub proof fn lemma_perft_all_bounds(c: GameCore, m: int, depth: nat)
    requires
        depth > 0,
        0 <= m <= 4096,
    ensures
        0 <= perft_all(c, m, depth) <= (4096 - m) * pow4096((depth - 1) as nat),
    decreases depth, 4096 - m,
{
    lemma_pow4096_pos((depth - 1) as nat);
    if m < 4096 {
        lemma_perft_all_bounds(c, m + 1, depth);
        if is_move(c, m / 64, m % 64) {
            lemma_perft_bounds(apply_core(c, m / 64, m % 64), (depth - 1) as nat);
        }
        assert((4096 - m) * pow4096((depth - 1) as nat) == (4096 - (m + 1)) * pow4096(
            (depth - 1) as nat,
        ) + pow4096((depth - 1) as nat)) by (nonlinear_arith);
    } else {
        assert((4096 - m) * pow4096((depth - 1) as nat) == 0) by (nonlinear_arith)
            requires
                m == 4096,
        ;
    }
}

pub proof fn lemma_seq_perft_nonneg(c: GameCore, ms: Seq<(u8, u8)>, i: int, d: nat)
    ensures
        seq_perft(c, ms, i, d) >= 0,
    decreases ms.len() - i,
{
    if 0 <= i < ms.len() {
        lemma_seq_perft_nonneg(c, ms, i + 1, d);
        lemma_perft_bounds(apply_core(c, ms[i].0 as int, ms[i].1 as int), d);
    }
}

/// An empty list selects nothing.
proof fn lemma_sel_none(c: GameCore, m: int, depth: nat, ms: Seq<(u8, u8)>)
    requires
        ms.len() == 0,
    ensures
        perft_sel(c, m, depth, ms) == 0,
    decreases 4096 - m,
{
    if 0 <= m < 4096 && depth > 0 {
        lemma_sel_none(c, m + 1, depth, ms);
    }
}

/// Appending one fresh legal move to the list adds exactly its count to the
/// selected sum.
proof fn lemma_sel_insert(c: GameCore, m: int, depth: nat, ms2: Seq<(u8, u8)>, x: (u8, u8))
    requires
        depth > 0,
        0 <= m <= 4096,
        x.0 < 64,
        x.1 < 64,
        is_move(c, x.0 as int, x.1 as int),
        !ms2.contains(x),
    ensures
        perft_sel(c, m, depth, ms2.push(x)) == perft_sel(c, m, depth, ms2) + (if m <= x.0 as int
            * 64 + x.1 as int {
            perft(apply_core(c, x.0 as int, x.1 as int), (depth - 1) as nat)
        } else {
            0
        }),
    decreases 4096 - m,
{
    crate::chess::lemma_push_contains(ms2, x);
    if m < 4096 {
        lemma_sel_insert(c, m + 1, depth, ms2, x);
        let f = m / 64;
        let t = m % 64;
        let e = x.0 as int * 64 + x.1 as int;
        assert(e < 4096);
        if m == e {
            assert(f == x.0 as int && t == x.1 as int);
            assert(((f) as u8, (t) as u8) == x);
            assert(ms2.push(x).contains(x));
        } else {
            assert((f as u8, t as u8) == x ==> m == e);
        }
    }
}

/// Dropping the last listed move subtracts exactly its count from the listed
/// sum.
proof fn lemma_seq_perft_last(c: GameCore, ms: Seq<(u8, u8)>, i: int, d: nat)
    requires
        ms.len() > 0,
        0 <= i <= ms.len() - 1,
    ensures
        seq_perft(c, ms, i, d) == seq_perft(c, ms.drop_last(), i, d) + perft(
            apply_core(c, ms.last().0 as int, ms.last().1 as int),
            d,
        ),
    decreases ms.len() - i,
{
    let ms2 = ms.drop_last();
    assert(ms2.len() == ms.len() - 1);
    if i < ms.len() - 1 {
        lemma_seq_perft_last(c, ms, i + 1, d);
        assert(ms2[i] == ms[i]);
    } else {
        assert(ms[i] == ms.last());
        assert(seq_perft(c, ms, i + 1, d) == 0);
        assert(seq_perft(c, ms2, i, d) == 0);
    }
}

/// The listed perft sum of a duplicate-free move list equals the selected
/// enumeration sum.
proof fn lemma_seq_perft_sel(c: GameCore, ms: Seq<(u8, u8)>, depth: nat)
    requires
        depth > 0,
        forall|j: int| 0 <= j < ms.len() ==> (#[trigger] ms[j]).0 < 64 && ms[j].1 < 64,
        forall|j: int|
            0 <= j < ms.len() ==> is_move(c, (#[trigger] ms[j]).0 as int, ms[j].1 as int),
        forall|j1: int, j2: int| 0 <= j1 < j2 < ms.len() ==> #[trigger] ms[j1] != #[trigger] ms[j2],
    ensures
        seq_perft(c, ms, 0, (depth - 1) as nat) == perft_sel(c, 0, depth, ms),
    decreases ms.len(),
{
    if ms.len() == 0 {
        lemma_sel_none(c, 0, depth, ms);
    } else {
        let ms2 = ms.drop_last();
        let x = ms.last();
        assert(!ms2.contains(x)) by {
            if ms2.contains(x) {
                let j = choose|j: int| 0 <= j < ms2.len() && ms2[j] == x;
                assert(ms[j] == x && ms[ms.len() - 1] == x);
                assert(false);
            }
        }
        assert(forall|j: int| 0 <= j < ms2.len() ==> ms2[j] == ms[j]);
        lemma_seq_perft_sel(c, ms2, depth);
        lemma_seq_perft_last(c, ms, 0, (depth - 1) as nat);
        lemma_sel_insert(c, 0, depth, ms2, x);
        assert(ms2.push(x) =~= ms);
    }
}

/// With the full legality characterization the selected sum is the whole
/// enumeration sum.
proof fn lemma_sel_all(c: GameCore, ms: Seq<(u8, u8)>, m: int, depth: nat)
    requires
        depth > 0,
        forall|f: u8, t: u8|
            f < 64 && t < 64 ==> (#[trigger] ms.contains((f, t)) <==> is_move(c, f as int, t as int)),
    ensures
        perft_sel(c, m, depth, ms) == perft_all(c, m, depth),
    decreases 4096 - m,
{
    if 0 <= m < 4096 {
        lemma_sel_all(c, ms, m + 1, depth);
        if is_move(c, m / 64, m % 64) {
            assert(0 <= m / 64 < 64 && 0 <= m % 64 < 64);
            assert(ms.contains(((m / 64) as u8, (m % 64) as u8)));
        }
    }
}

/// A duplicate-free move list carrying the legality characterization sums to
/// the perft count.
pub proof fn lemma_perft_eq(c: GameCore, ms: Seq<(u8, u8)>, depth: nat)
    requires
        depth > 0,
        forall|j: int| 0 <= j < ms.len() ==> (#[trigger] ms[j]).0 < 64 && ms[j].1 < 64,
        forall|f: u8, t: u8|
            f < 64 && t < 64 ==> (#[trigger] ms.contains((f, t)) <==> is_move(c, f as int, t as int)),
        forall|j1: int, j2: int| 0 <= j1 < j2 < ms.len() ==> #[trigger] ms[j1] != #[trigger] ms[j2],
    ensures
        seq_perft(c, ms, 0, (depth - 1) as nat) == perft(c, depth),
{
    assert(forall|j: int|
        0 <= j < ms.len() ==> is_move(c, (#[trigger] ms[j]).0 as int, ms[j].1 as int)) by {
        assert forall|j: int|
            0 <= j < ms.len() implies is_move(c, (#[trigger] ms[j]).0 as int, ms[j].1 as int) by {
            assert(ms.contains((ms[j].0, ms[j].1))) by {
                assert(ms[j] == (ms[j].0, ms[j].1));
            }
        }
    }
    lemma_seq_perft_sel(c, ms, depth);
    lemma_sel_all(c, ms, 0, depth);
}

/// The bound fits comfortably in a 64-bit count for the depths allowed.
pub proof fn lemma_pow4096_bound()
    ensures
        pow4096(5) <= 0x1000_0000_0000_0000,
        forall|d: nat| d <= 5 ==> #[trigger] pow4096(d) <= 0x1000_0000_0000_0000,
{
    assert(pow4096(0) == 1);
    assert(pow4096(1) == 4096);
    assert(pow4096(2) == 0x100_0000);
    assert(pow4096(3) == 0x10_0000_0000);
    assert(pow4096(4) == 0x1_0000_0000_0000);
    assert(pow4096(5) == 0x1000_0000_0000_0000);
    assert forall|d: nat| d <= 5 implies #[trigger] pow4096(d) <= 0x1000_0000_0000_0000 by {
        lemma_pow4096_mono(d, 5);
    }
}

/// Powers of 4096 grow with the exponent.
pub proof fn lemma_pow4096_mono(a: nat, b: nat)
    requires
        a <= b,
    ensures
        pow4096(a) <= pow4096(b),
    decreases b,
{
    lemma_pow4096_pos(a);
    if a < b {
        lemma_pow4096_mono(a, (b - 1) as nat);
        lemma_pow4096_pos((b - 1) as nat);
        assert(4096 * pow4096((b - 1) as nat) >= pow4096((b - 1) as nat)) by (nonlinear_arith)
            requires
                pow4096((b - 1) as nat) >= 1,
        ;
    }
}

/// The best value over the first `k` listed moves (the prefix the search has
/// already explored).
pub open spec fn seq_best_prefix(c: GameCore, ms: Seq<(u8, u8)>, k: int, d: nat) -> int {
    seq_best(c, ms.subrange(0, k), 0, d)
}

pub proof fn lemma_prefix_step(c: GameCore, ms: Seq<(u8, u8)>, k: int, d: nat)
    requires
        0 <= k < ms.len(),
    ensures
        seq_best_prefix(c, ms, k + 1, d) == (if -minimax(
            apply_core(c, ms[k].0 as int, ms[k].1 as int),
            d,
        ) > seq_best_prefix(c, ms, k, d) {
            -minimax(apply_core(c, ms[k].0 as int, ms[k].1 as int), d)
        } else {
            seq_best_prefix(c, ms, k, d)
        }),
{
    lemma_prefix_step_inner(c, ms, 0, k, d);
}

proof fn lemma_prefix_step_inner(c: GameCore, ms: Seq<(u8, u8)>, i: int, k: int, d: nat)
    requires
        0 <= i <= k < ms.len(),
    ensures
        seq_best(c, ms.subrange(0, k + 1), i, d) == (if -minimax(
            apply_core(c, ms[k].0 as int, ms[k].1 as int),
            d,
        ) > seq_best(c, ms.subrange(0, k), i, d) {
            -minimax(apply_core(c, ms[k].0 as int, ms[k].1 as int), d)
        } else {
            seq_best(c, ms.subrange(0, k), i, d)
        }),
    decreases k - i,
{
    let pre = ms.subrange(0, k);
    let pre2 = ms.subrange(0, k + 1);
    assert(pre2.len() == k + 1 && pre.len() == k);
    assert(forall|j: int| 0 <= j < k ==> pre2[j] == ms[j] && pre[j] == ms[j]);
    assert(pre2[k] == ms[k]);
    if i < k {
        lemma_prefix_step_inner(c, ms, i + 1, k, d);
        assert(pre2[i] == ms[i] && pre[i] == ms[i]);
        assert(seq_best(c, pre2, i, d) == {
            let v = -minimax(apply_core(c, pre2[i].0 as int, pre2[i].1 as int), d);
            let rest = seq_best(c, pre2, i + 1, d);
            if v > rest {
                v
            } else {
                rest
            }
        });
        assert(seq_best(c, pre, i, d) == {
            let v = -minimax(apply_core(c, pre[i].0 as int, pre[i].1 as int), d);
            let rest = seq_best(c, pre, i + 1, d);
            if v > rest {
                v
            } else {
                rest
            }
        });
    } else {
        assert(seq_best(c, pre, k, d) == -(INFINITY_SCORE as int));
        assert(seq_best(c, pre2, k + 1, d) == -(INFINITY_SCORE as int));
        lemma_minimax_bounds(apply_core(c, ms[k].0 as int, ms[k].1 as int), d);
    }
}

/// Once the whole list has been explored, the prefix maximum is the full
/// maximum.
pub proof fn lemma_prefix_full(c: GameCore, ms: Seq<(u8, u8)>, d: nat)
    ensures
        seq_best_prefix(c, ms, ms.len() as int, d) == seq_best(c, ms, 0, d),
{
    assert(ms.subrange(0, ms.len() as int) == ms);
}

/// The prefix maximum dominates the value of every move in the prefix.
pub proof fn lemma_prefix_ge_elem(c: GameCore, ms: Seq<(u8, u8)>, k: int, d: nat, j: int)
    requires
        0 <= j < k <= ms.len(),
    ensures
        seq_best_prefix(c, ms, k, d) >= -minimax(
            apply_core(c, ms[j].0 as int, ms[j].1 as int),
            d,
        ),
{
    let sub = ms.subrange(0, k);
    assert(sub[j] == ms[j]);
    lemma_seq_best_ge(c, sub, 0, d, j);
}

} // verus!
