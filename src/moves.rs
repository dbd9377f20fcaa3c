use vstd::prelude::*;
use crate::bitboard::{bit, lemma_lowest, lemma_or, lemma_single, lemma_zero, lowest, BitBoard};
use crate::lookup::{abs, d_file, d_rank, file_of, on_board, queen_line, rank_of};
use crate::pieces::PieceType;

verus! {

/// A move from one square to another, with the piece a pawn promotes to.
pub struct Move {
    from: usize,
    to: usize,
    promotion: Option<PieceType>,
}

pub open spec fn sgn(x: int) -> int {
    if x > 0 {
        1
    } else if x < 0 {
        -1
    } else {
        0
    }
}

/// `k` steps in the direction of sign `s` along one coordinate.
pub open spec fn scale(k: int, s: int) -> int {
    if s > 0 {
        k
    } else if s < 0 {
        -k
    } else {
        0
    }
}

/// King-step distance between two squares.
pub open spec fn dist(a: int, b: int) -> int {
    if abs(d_rank(a, b)) >= abs(d_file(a, b)) {
        abs(d_rank(a, b))
    } else {
        abs(d_file(a, b))
    }
}

/// `a` and `b` share a rank, a file or a diagonal.
pub open spec fn aligned(a: int, b: int) -> bool {
    d_rank(a, b) == 0 || d_file(a, b) == 0 || abs(d_rank(a, b)) == abs(d_file(a, b))
}

/// Board square `s` lies strictly between the aligned squares `a` and `b`:
/// it is `k` unit steps from `a` towards `b`, with `0 < k < dist(a, b)`.
pub open spec fn strictly_between(a: int, b: int, s: int) -> bool {
    &&& on_board(s)
    &&& aligned(a, b)
    &&& 0 < dist(a, s) < dist(a, b)
    &&& d_rank(a, s) == scale(dist(a, s), sgn(d_rank(a, b)))
    &&& d_file(a, s) == scale(dist(a, s), sgn(d_file(a, b)))
}

fn signum(x: i64) -> (r: i64)
    ensures
        r == sgn(x as int),
{
    if x > 0 {
        1
    } else if x < 0 {
        -1
    } else {
        0
    }
}

/// Squares strictly between board squares `a` and `b`, walked one unit step
/// at a time from `a`; empty where the two share no line.
fn between_squares(a: usize, b: usize) -> (r: u64)
    requires
        a < 64,
        b < 64,
    ensures
        forall|s: int| #[trigger] bit(r, s) == strictly_between(a as int, b as int, s),
{
    proof {
        lemma_zero();
    }
    let ra = (a / 8) as i64;
    let fa = (a % 8) as i64;
    let dr = (b / 8) as i64 - ra;
    let df = (b % 8) as i64 - fa;
    let adr = if dr < 0 { -dr } else { dr };
    let adf = if df < 0 { -df } else { df };
    if a == b || !(dr == 0 || df == 0 || adr == adf) {
        return 0;
    }
    let sr = signum(dr);
    let sf = signum(df);
    let n = if adr >= adf { adr } else { adf };
    let mut r = ra + sr;
    let mut f = fa + sf;
    let mut k: i64 = 1;
    let mut acc: u64 = 0;
    while k < n
        invariant
            a < 64,
            b < 64,
            a != b,
            ra == a as int / 8,
            fa == a as int % 8,
            dr == d_rank(a as int, b as int),
            df == d_file(a as int, b as int),
            aligned(a as int, b as int),
            sr == sgn(dr as int),
            sf == sgn(df as int),
            n == dist(a as int, b as int),
            1 <= k <= n,
            r == ra + scale(k as int, sr as int),
            f == fa + scale(k as int, sf as int),
            forall|s: int| #[trigger]
                bit(acc, s) == (strictly_between(a as int, b as int, s) && dist(a as int, s) < k),
        decreases n - k,
    {
        let sq = (r * 8 + f) as usize;
        proof {
            assert(0 <= r < 8 && 0 <= f < 8);
            assert(sq as int / 8 == r && sq as int % 8 == f);
            lemma_single(sq as u64);
            lemma_or(acc, 1u64 << (sq as u64));
            assert forall|s: int| #[trigger]
                bit(acc | (1u64 << (sq as u64)), s) == (strictly_between(a as int, b as int, s)
                    && dist(a as int, s) < k + 1) by {
                if strictly_between(a as int, b as int, s) && dist(a as int, s) == k {
                    assert(s / 8 == r && s % 8 == f);
                    assert(s == sq);
                }
                if s == sq {
                    assert(dist(a as int, s) == k);
                }
            }
        }
        acc = acc | (1u64 << (sq as u64));
        r = r + sr;
        f = f + sf;
        k = k + 1;
    }
    acc
}

/// The squares strictly between the lowest squares of `from` and `to` when
/// those share a rank, file or diagonal; empty otherwise.
pub fn between_rays(from: BitBoard, to: BitBoard) -> (r: BitBoard)
    requires
        from.0 != 0,
        to.0 != 0,
    ensures
        forall|s: int| #[trigger] r.has(s) == strictly_between(lowest(from.0), lowest(to.0), s),
{
    proof {
        lemma_lowest(from.0);
        lemma_lowest(to.0);
    }
    BitBoard(between_squares(from.first(), to.first()))
}

/// Nothing lies between a square and itself.
pub proof fn lemma_between_self(a: int, s: int)
    ensures
        !strictly_between(a, a, s),
{
}

/// The squares between `a` and `b` are those between `b` and `a`.
pub proof fn lemma_between_symmetric(a: int, b: int, s: int)
    requires
        on_board(a),
        on_board(b),
    ensures
        strictly_between(a, b, s) == strictly_between(b, a, s),
{
    if strictly_between(a, b, s) {
        lemma_between_flip(a, b, s);
    }
    if strictly_between(b, a, s) {
        lemma_between_flip(b, a, s);
    }
}

proof fn lemma_between_flip(a: int, b: int, s: int)
    requires
        on_board(a),
        on_board(b),
        strictly_between(a, b, s),
    ensures
        strictly_between(b, a, s),
{
    let n = dist(a, b);
    let k = dist(a, s);
    assert(d_rank(a, b) == scale(n, sgn(d_rank(a, b))));
    assert(d_file(a, b) == scale(n, sgn(d_file(a, b))));
    assert(d_rank(b, s) == d_rank(a, s) - d_rank(a, b));
    assert(d_file(b, s) == d_file(a, s) - d_file(a, b));
    assert(dist(b, s) == n - k);
}

/// Squares lie between `a` and `b` only where the two share a line and are
/// at least two steps apart.
pub proof fn lemma_between_needs_line(a: int, b: int, s: int)
    requires
        strictly_between(a, b, s),
    ensures
        aligned(a, b),
        a != b,
        dist(a, b) >= 2,
{
}

/// A sliding ray never wraps across an edge: for every square `b` of the
/// queen pattern of `a` (which holds the rook and bishop patterns), the walk
/// from `a` one unit step at a time stays on the board at every step and
/// ends exactly on `b`.
pub proof fn lemma_sliding_no_wrap(a: int, b: int, k: int)
    requires
        on_board(a),
        on_board(b),
        queen_line(a, b),
        0 <= k <= dist(a, b),
    ensures
        0 <= rank_of(a) + scale(k, sgn(d_rank(a, b))) < 8,
        0 <= file_of(a) + scale(k, sgn(d_file(a, b))) < 8,
        rank_of(b) == rank_of(a) + scale(dist(a, b), sgn(d_rank(a, b))),
        file_of(b) == file_of(a) + scale(dist(a, b), sgn(d_file(a, b))),
{
}

} // verus!
