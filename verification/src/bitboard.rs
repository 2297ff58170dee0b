//! A 64-bit set of board squares.

use vstd::prelude::*;
use crate::geometry::{
    col_of, dir_col, dir_row, on_board, ray_contains, row_of, sgn, sq_at, step_col, step_on_board,
    step_row, step_sq, lemma_step_bound,
};

verus! {

/// True when bit `i` of `b` is set; only indices below 64 name a square.
pub open spec fn bit_set(b: u64, i: u64) -> bool {
    i < 64 && b & (1u64 << i) != 0
}

pub proof fn lemma_bits_zero()
    ensures
        forall|i: u64| !bit_set(0u64, i),
{
    assert(forall|i: u64| i < 64 ==> 0u64 & (1u64 << i) == 0) by (bit_vector);
}

pub proof fn lemma_bits_or(a: u64, b: u64)
    ensures
        forall|i: u64| #[trigger] bit_set(a | b, i) <==> bit_set(a, i) || bit_set(b, i),
{
    assert(forall|i: u64|
        i < 64 ==> (((a | b) & (1u64 << i) != 0) <==> (a & (1u64 << i) != 0 || b & (1u64 << i)
            != 0))) by (bit_vector);
}

pub proof fn lemma_bits_single(j: u64)
    requires
        j < 64,
    ensures
        forall|i: u64| #[trigger] bit_set(1u64 << j, i) <==> i == j,
{
    assert(forall|i: u64| i < 64 ==> (((1u64 << j) & (1u64 << i) != 0) <==> i == j)) by (bit_vector)
        requires
            j < 64,
    ;
}

#[derive(Debug, Clone, Copy, PartialEq, Eq, Structural)]
pub struct Bitboard(pub u64);

impl Bitboard {
    pub fn empty() -> (r: Self)
        ensures
            r.0 == 0,
            forall|i: u64| !bit_set(r.0, i),
    {
        proof {
            lemma_bits_zero();
        }
        Bitboard(0)
    }

    pub fn set_bit(&mut self, index: u8)
        requires
            index < 64,
        ensures
            final(self).0 == old(self).0 | (1u64 << (index as u64)),
            forall|i: u64|
                #[trigger] bit_set(final(self).0, i) <==> bit_set(old(self).0, i) || i == index
                    as u64,
    {
        proof {
            lemma_bits_or(self.0, 1u64 << (index as u64));
            lemma_bits_single(index as u64);
        }
        self.0 = self.0 | (1u64 << (index as u64));
    }

    pub fn get_bit(&self, index: u8) -> (r: bool)
        requires
            index < 64,
        ensures
            r == bit_set(self.0, index as u64),
    {
        (self.0 & (1u64 << (index as u64))) != 0
    }

    pub fn switch_on_index(&mut self, index: u8)
        requires
            index < 64,
        ensures
            final(self).0 == old(self).0 | (1u64 << (index as u64)),
            forall|i: u64|
                #[trigger] bit_set(final(self).0, i) <==> bit_set(old(self).0, i) || i == index
                    as u64,
    {
        self.set_bit(index);
    }

    pub fn switch_on_indices(&mut self, indices: &Vec<u8>)
        requires
            forall|j: int| 0 <= j < indices@.len() ==> indices@[j] < 64,
        ensures
            forall|i: u64|
                i < 64 ==> (#[trigger] bit_set(final(self).0, i) <==> bit_set(old(self).0, i)
                    || indices@.contains(i as u8)),
    {
        let n: usize = indices.len();
        let mut k: usize = 0;
        while k < n
            invariant
                n == indices@.len(),
                k <= n,
                forall|j: int| 0 <= j < indices@.len() ==> indices@[j] < 64,
                forall|i: u64|
                    i < 64 ==> (#[trigger] bit_set(self.0, i) <==> bit_set(old(self).0, i)
                        || indices@.subrange(0, k as int).contains(i as u8)),
            decreases n - k,
        {
            let idx: u8 = indices[k];
            self.set_bit(idx);
            proof {
                assert forall|i: u64| i < 64 implies (#[trigger] bit_set(self.0, i) <==> bit_set(
                    old(self).0,
                    i,
                ) || indices@.subrange(0, k + 1 as int).contains(i as u8)) by {
                    let pre = indices@.subrange(0, k as int);
                    let post = indices@.subrange(0, k + 1 as int);
                    assert(post == pre.push(indices@[k as int]));
                    if post.contains(i as u8) {
                        let w = choose|w: int| 0 <= w < post.len() && post[w] == i as u8;
                        if w < k as int {
                            assert(pre[w] == i as u8);
                            assert(pre.contains(i as u8));
                        }
                    }
                    if pre.contains(i as u8) {
                        let w = choose|w: int| 0 <= w < pre.len() && pre[w] == i as u8;
                        assert(post[w] == i as u8);
                        assert(post.contains(i as u8));
                    }
                    if i == indices@[k as int] as u64 {
                        assert(post[k as int] == i as u8);
                        assert(post.contains(i as u8));
                    }
                }
            }
            k = k + 1;
        }
        proof {
            assert(indices@.subrange(0, n as int) == indices@);
        }
    }

    /// A board with exactly the bit `index` set, or no bits when `index`
    /// names no square.
    pub fn from_index(index: u8) -> (r: Bitboard)
        ensures
            index < 64 ==> r.0 == 1u64 << (index as u64),
            index >= 64 ==> r.0 == 0,
            forall|i: u64| #[trigger] bit_set(r.0, i) <==> index < 64 && i == index as u64,
    {
        if index < 64 {
            proof {
                lemma_bits_single(index as u64);
            }
            let mask: u64 = 1u64 << (index as u64);
            Bitboard(mask)
        } else {
            proof {
                lemma_bits_zero();
            }
            Bitboard(0)
        }
    }

    /// The squares reached by walking one unit step at a time from `from`
    /// toward `to`, stopping at `to` or at the board edge: for aligned
    /// squares, the ray from `from` to `to`, excluding `from`, including `to`.
    pub fn ray(from: u8, to: u8) -> (r: Bitboard)
        requires
            from < 64,
            to < 64,
        ensures
            forall|i: u64|
                i < 64 ==> (#[trigger] bit_set(r.0, i) <==> ray_contains(
                    from as int,
                    to as int,
                    i as int,
                )),
    {
        let mut bb = Bitboard::empty();
        if from == to {
            return bb;
        }
        let fr: i32 = (from / 8) as i32;
        let fc: i32 = (from % 8) as i32;
        let tr: i32 = (to / 8) as i32;
        let tc: i32 = (to % 8) as i32;
        let dr: i32 = if tr > fr {
            1
        } else if tr < fr {
            -1
        } else {
            0
        };
        let dc: i32 = if tc > fc {
            1
        } else if tc < fc {
            -1
        } else {
            0
        };
        proof {
            let f = from as int;
            let t = to as int;
            assert(dr == dir_row(f, t) && dc == dir_col(f, t));
            assert(dr != 0 || dc != 0);
        }
        let mut k: u32 = 1;
        loop
            invariant_except_break
                forall|i: u64|
                    i < 64 ==> (#[trigger] bit_set(bb.0, i) <==> exists|j: int|
                        1 <= j < k && i as int == step_sq(from as int, dr as int, dc as int, j)),
            invariant
                from < 64,
                to < 64,
                from != to,
                1 <= k <= 8,
                dr == dir_row(from as int, to as int),
                dc == dir_col(from as int, to as int),
                fr == row_of(from as int) && fc == col_of(from as int),
                tr == row_of(to as int) && tc == col_of(to as int),
                forall|j: int|
                    1 <= j < k ==> #[trigger] step_on_board(from as int, dr as int, dc as int, j),
                forall|j: int|
                    1 <= j < k ==> #[trigger] step_sq(from as int, dr as int, dc as int, j) != to
                        as int,
            ensures
                forall|i: u64|
                    i < 64 ==> (#[trigger] bit_set(bb.0, i) <==> ray_contains(
                        from as int,
                        to as int,
                        i as int,
                    )),
            decreases 9 - k,
        {
            proof {
                assert(-8 <= (k as int) * (dr as int) <= 8) by (nonlinear_arith)
                    requires
                        1 <= k <= 8,
                        -1 <= dr as int <= 1,
                ;
                assert(-8 <= (k as int) * (dc as int) <= 8) by (nonlinear_arith)
                    requires
                        1 <= k <= 8,
                        -1 <= dc as int <= 1,
                ;
            }
            let cr: i32 = fr + (k as i32) * dr;
            let cc: i32 = fc + (k as i32) * dc;
            assert(cr == step_row(from as int, dr as int, k as int));
            assert(cc == step_col(from as int, dc as int, k as int));
            if !(0 <= cr && cr < 8 && 0 <= cc && cc < 8) {
                // Walked off the board: no step at or beyond k exists.
                proof {
                    assert forall|i: u64|
                        i < 64 implies (#[trigger] bit_set(bb.0, i) <==> ray_contains(
                        from as int,
                        to as int,
                        i as int,
                    )) by {
                        let f = from as int;
                        let t = to as int;
                        let dri = dr as int;
                        let dci = dc as int;
                        if ray_contains(f, t, i as int) {
                            let m = choose|m: int|
                                1 <= m <= 8 && (forall|j: int|
                                    1 <= j <= m ==> #[trigger] step_on_board(f, dri, dci, j)) && (
                                forall|j: int|
                                    1 <= j < m ==> #[trigger] step_sq(f, dri, dci, j) != t) && i
                                    as int == step_sq(f, dri, dci, m);
                            if m >= k as int {
                                assert(step_on_board(f, dri, dci, k as int));
                                assert(false);
                            }
                            assert(m < k as int);
                        }
                    }
                }
                break;
            }
            let s: u8 = (cr * 8 + cc) as u8;
            assert(s as int == step_sq(from as int, dr as int, dc as int, k as int));
            bb.set_bit(s);
            if s == to {
                proof {
                    assert forall|i: u64|
                        i < 64 implies (#[trigger] bit_set(bb.0, i) <==> ray_contains(
                        from as int,
                        to as int,
                        i as int,
                    )) by {
                        let f = from as int;
                        let t = to as int;
                        let dri = dr as int;
                        let dci = dc as int;
                        if bit_set(bb.0, i) {
                            // every set bit is a step at some j <= k
                            if i as int == step_sq(f, dri, dci, k as int) {
                                assert(ray_contains(f, t, i as int));
                            } else {
                                let j = choose|j: int|
                                    1 <= j < k && i as int == step_sq(f, dri, dci, j);
                                assert(ray_contains(f, t, i as int));
                            }
                        }
                        if ray_contains(f, t, i as int) {
                            let m = choose|m: int|
                                1 <= m <= 8 && (forall|j: int|
                                    1 <= j <= m ==> #[trigger] step_on_board(f, dri, dci, j)) && (
                                forall|j: int|
                                    1 <= j < m ==> #[trigger] step_sq(f, dri, dci, j) != t) && i
                                    as int == step_sq(f, dri, dci, m);
                            // the walk stops at k, so m <= k
                            if m > k as int {
                                assert(step_sq(f, dri, dci, k as int) == t);
                                assert(false);
                            }
                            assert(m <= k as int);
                            if m < k as int {
                                assert(bit_set(bb.0, i));
                            } else {
                                assert(i as int == step_sq(f, dri, dci, k as int));
                                assert(bit_set(bb.0, i));
                            }
                        }
                    }
                }
                break;
            }
            proof {
                lemma_step_bound(from as int, dr as int, dc as int, k as int);
            }
            k = k + 1;
        }
        bb
    }
}

} // verus!
