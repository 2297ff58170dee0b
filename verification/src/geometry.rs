//! Board geometry: squares are integers 0..64, row-major, row 0 at the top
//! (black's back rank), so square = row * 8 + col.

use vstd::prelude::*;

verus! {

pub open spec fn row_of(s: int) -> int {
    s / 8
}

pub open spec fn col_of(s: int) -> int {
    s % 8
}

pub open spec fn on_board(r: int, c: int) -> bool {
    0 <= r < 8 && 0 <= c < 8
}

pub open spec fn sq_at(r: int, c: int) -> int {
    r * 8 + c
}

pub open spec fn sgn(x: int) -> int {
    if x > 0 {
        1
    } else if x < 0 {
        -1
    } else {
        0
    }
}

/// Row reached after `k` steps from `from` in direction `(dr, dc)`.
pub open spec fn step_row(from: int, dr: int, k: int) -> int {
    row_of(from) + k * dr
}

/// Column reached after `k` steps from `from` in direction `(dr, dc)`.
pub open spec fn step_col(from: int, dc: int, k: int) -> int {
    col_of(from) + k * dc
}

pub open spec fn step_on_board(from: int, dr: int, dc: int, k: int) -> bool {
    on_board(step_row(from, dr, k), step_col(from, dc, k))
}

/// Square reached after `k` steps from `from` in direction `(dr, dc)`.
pub open spec fn step_sq(from: int, dr: int, dc: int, k: int) -> int {
    sq_at(step_row(from, dr, k), step_col(from, dc, k))
}

/// Direction of the walk from `from` toward `to`: unit row and column steps.
pub open spec fn dir_row(from: int, to: int) -> int {
    sgn(row_of(to) - row_of(from))
}

pub open spec fn dir_col(from: int, to: int) -> int {
    sgn(col_of(to) - col_of(from))
}

/// The squares produced by walking from `from` toward `to` one unit step at a
/// time: every square reached before walking off the board, stopping once `to`
/// itself has been reached (inclusive).  For aligned squares this is the ray
/// from `from` to `to`, excluding `from` and including `to`.
pub open spec fn ray_contains(from: int, to: int, s: int) -> bool {
    let dr = dir_row(from, to);
    let dc = dir_col(from, to);
    from != to && exists|k: int|
        1 <= k <= 8 && (forall|j: int| 1 <= j <= k ==> #[trigger] step_on_board(from, dr, dc, j))
            && (forall|j: int| 1 <= j < k ==> #[trigger] step_sq(from, dr, dc, j) != to) && s
            == step_sq(from, dr, dc, k)
}

/// Two distinct squares on the board, one a unit-step walk away from the
/// other, never sit more than 8 steps apart in either coordinate; walks in
/// `ray_contains` are therefore bounded.
pub proof fn lemma_step_bound(from: int, dr: int, dc: int, k: int)
    requires
        0 <= from < 64,
        -1 <= dr <= 1,
        -1 <= dc <= 1,
        dr != 0 || dc != 0,
        k >= 1,
        step_on_board(from, dr, dc, k),
    ensures
        k <= 7,
{
    if dr == 1 {
        assert(row_of(from) + k * 1 <= 7);
    } else if dr == -1 {
        assert(0 <= row_of(from) + k * (-1));
    } else if dc == 1 {
        assert(col_of(from) + k * 1 <= 7);
    } else {
        assert(0 <= col_of(from) + k * (-1));
    }
}

/// Once a unit-step walk has left the board it never returns: the failing
/// coordinate keeps moving away.
pub proof fn lemma_off_monotone(o: int, dr: int, dc: int, k: int, j: int)
    requires
        0 <= o < 64,
        -1 <= dr <= 1,
        -1 <= dc <= 1,
        !step_on_board(o, dr, dc, k),
        1 <= k <= j,
    ensures
        !step_on_board(o, dr, dc, j),
{
    assert(k * dr == (if dr == 1 {
        k
    } else if dr == -1 {
        -k
    } else {
        0
    })) by (nonlinear_arith)
        requires
            -1 <= dr <= 1,
    ;
    assert(j * dr == (if dr == 1 {
        j
    } else if dr == -1 {
        -j
    } else {
        0
    })) by (nonlinear_arith)
        requires
            -1 <= dr <= 1,
    ;
    assert(k * dc == (if dc == 1 {
        k
    } else if dc == -1 {
        -k
    } else {
        0
    })) by (nonlinear_arith)
        requires
            -1 <= dc <= 1,
    ;
    assert(j * dc == (if dc == 1 {
        j
    } else if dc == -1 {
        -j
    } else {
        0
    })) by (nonlinear_arith)
        requires
            -1 <= dc <= 1,
    ;
}

} // verus!
