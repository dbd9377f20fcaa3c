use vstd::prelude::*;
use crate::bitboard::{bit, lemma_or, lemma_single, BitBoard};

verus! {

/// Rank (row) of square `s`; rank 0 is White's back row.
pub open spec fn rank_of(s: int) -> int {
    s / 8
}

/// File (column) of square `s`; file 0 is the a-file.
pub open spec fn file_of(s: int) -> int {
    s % 8
}

pub open spec fn abs(x: int) -> int {
    if x < 0 {
        -x
    } else {
        x
    }
}

/// Rank difference from `a` to `b`.
pub open spec fn d_rank(a: int, b: int) -> int {
    rank_of(b) - rank_of(a)
}

/// File difference from `a` to `b`.
pub open spec fn d_file(a: int, b: int) -> int {
    file_of(b) - file_of(a)
}

pub open spec fn on_board(s: int) -> bool {
    0 <= s < 64
}

/// One king step from `a` reaches `b`.
pub open spec fn king_step(a: int, b: int) -> bool {
    a != b && abs(d_rank(a, b)) <= 1 && abs(d_file(a, b)) <= 1
}

/// One knight jump from `a` reaches `b`.
pub open spec fn knight_step(a: int, b: int) -> bool {
    (abs(d_rank(a, b)) == 1 && abs(d_file(a, b)) == 2) || (abs(d_rank(a, b)) == 2 && abs(
        d_file(a, b),
    ) == 1)
}

/// A white pawn on `a` attacks `b` (one rank up, one file aside).
pub open spec fn white_pawn_step(a: int, b: int) -> bool {
    d_rank(a, b) == 1 && abs(d_file(a, b)) == 1
}

/// A black pawn on `a` attacks `b` (one rank down, one file aside).
pub open spec fn black_pawn_step(a: int, b: int) -> bool {
    d_rank(a, b) == -1 && abs(d_file(a, b)) == 1
}

/// `b` is on the same rank or file as `a`, and differs from it.
pub open spec fn rook_line(a: int, b: int) -> bool {
    a != b && (d_rank(a, b) == 0 || d_file(a, b) == 0)
}

/// `b` is on the same diagonal as `a`, and differs from it.
pub open spec fn bishop_line(a: int, b: int) -> bool {
    a != b && abs(d_rank(a, b)) == abs(d_file(a, b))
}

/// `b` is on a common rank, file or diagonal with `a`, and differs from it.
pub open spec fn queen_line(a: int, b: int) -> bool {
    rook_line(a, b) || bishop_line(a, b)
}

/// A movement pattern of a piece.
#[derive(Clone, Copy, PartialEq, Eq, Debug)]
pub enum Pattern {
    King,
    Queen,
    Rook,
    Bishop,
    Knight,
    WhitePawn,
    BlackPawn,
}

/// Whether the pattern `p` leads from square `a` to the board square `b`,
/// with no obstruction considered.
pub open spec fn reaches(p: Pattern, a: int, b: int) -> bool {
    on_board(b) && match p {
        Pattern::King => king_step(a, b),
        Pattern::Queen => queen_line(a, b),
        Pattern::Rook => rook_line(a, b),
        Pattern::Bishop => bishop_line(a, b),
        Pattern::Knight => knight_step(a, b),
        Pattern::WhitePawn => white_pawn_step(a, b),
        Pattern::BlackPawn => black_pawn_step(a, b),
    }
}

fn abs_i64(x: i64) -> (r: i64)
    requires
        x > i64::MIN,
    ensures
        r == abs(x as int),
{
    if x < 0 {
        -x
    } else {
        x
    }
}

fn pattern_holds(p: Pattern, a: usize, b: usize) -> (r: bool)
    requires
        a < 64,
        b < 64,
    ensures
        r == reaches(p, a as int, b as int),
{
    let dr = abs_i64((b / 8) as i64 - (a / 8) as i64);
    let df = abs_i64((b % 8) as i64 - (a % 8) as i64);
    let sdr = (b / 8) as i64 - (a / 8) as i64;
    match p {
        Pattern::King => a != b && dr <= 1 && df <= 1,
        Pattern::Queen => a != b && (dr == 0 || df == 0 || dr == df),
        Pattern::Rook => a != b && (dr == 0 || df == 0),
        Pattern::Bishop => a != b && dr == df,
        Pattern::Knight => (dr == 1 && df == 2) || (dr == 2 && df == 1),
        Pattern::WhitePawn => sdr == 1 && df == 1,
        Pattern::BlackPawn => sdr == -1 && df == 1,
    }
}

/// The squares that `pattern` reaches from `origin`, each candidate square
/// checked on its own rank and file so that no step wraps across an edge.
fn lookup(pattern: Pattern, origin: usize) -> (r: BitBoard)
    requires
        origin < 64,
    ensures
        forall|b: int| #[trigger] r.has(b) == reaches(pattern, origin as int, b),
{
    let mut result: u64 = 0;
    let mut t: usize = 0;
    proof {
        crate::bitboard::lemma_zero();
    }
    while t < 64
        invariant
            t <= 64,
            origin < 64,
            forall|b: int| #[trigger] bit(result, b) == (b < t && reaches(pattern, origin as int, b)),
        decreases 64 - t,
    {
        if pattern_holds(pattern, origin, t) {
            proof {
                lemma_single(t as u64);
                lemma_or(result, 1u64 << (t as u64));
            }
            result = result | (1u64 << (t as u64));
        }
        t += 1;
    }
    BitBoard(result)
}

/// Squares a king on `piece_index` attacks.
pub fn king_lookup(piece_index: usize) -> (r: BitBoard)
    requires
        piece_index < 64,
    ensures
        forall|b: int| #[trigger] r.has(b) == (on_board(b) && king_step(piece_index as int, b)),
{
    lookup(Pattern::King, piece_index)
}

/// Squares on the unblocked queen rays from `piece_index`, up to the edges.
pub fn queen_lookup(piece_index: usize) -> (r: BitBoard)
    requires
        piece_index < 64,
    ensures
        forall|b: int| #[trigger] r.has(b) == (on_board(b) && queen_line(piece_index as int, b)),
{
    lookup(Pattern::Queen, piece_index)
}

/// Squares on the unblocked rook rays from `piece_index`, up to the edges.
pub fn rook_lookup(piece_index: usize) -> (r: BitBoard)
    requires
        piece_index < 64,
    ensures
        forall|b: int| #[trigger] r.has(b) == (on_board(b) && rook_line(piece_index as int, b)),
{
    lookup(Pattern::Rook, piece_index)
}

/// Squares on the unblocked bishop rays from `piece_index`, up to the edges.
pub fn bishop_lookup(piece_index: usize) -> (r: BitBoard)
    requires
        piece_index < 64,
    ensures
        forall|b: int| #[trigger] r.has(b) == (on_board(b) && bishop_line(piece_index as int, b)),
{
    lookup(Pattern::Bishop, piece_index)
}

/// Squares a knight on `piece_index` attacks.
pub fn knight_lookup(piece_index: usize) -> (r: BitBoard)
    requires
        piece_index < 64,
    ensures
        forall|b: int| #[trigger] r.has(b) == (on_board(b) && knight_step(piece_index as int, b)),
{
    lookup(Pattern::Knight, piece_index)
}

/// Squares a white pawn on `piece_index` attacks.
pub fn white_pawn_lookup(piece_index: usize) -> (r: BitBoard)
    requires
        piece_index < 64,
    ensures
        forall|b: int| #[trigger] r.has(b) == (on_board(b) && white_pawn_step(
            piece_index as int,
            b,
        )),
{
    lookup(Pattern::WhitePawn, piece_index)
}

/// Squares a black pawn on `piece_index` attacks.
pub fn black_pawn_lookup(piece_index: usize) -> (r: BitBoard)
    requires
        piece_index < 64,
    ensures
        forall|b: int| #[trigger] r.has(b) == (on_board(b) && black_pawn_step(
            piece_index as int,
            b,
        )),
{
    lookup(Pattern::BlackPawn, piece_index)
}

/// The table of `pattern` for all 64 origins.
fn generate(pattern: Pattern) -> (r: [BitBoard; 64])
    ensures
        forall|a: int, b: int| 0 <= a < 64 ==> #[trigger] r[a].has(b) == reaches(pattern, a, b),
{
    let mut table: [BitBoard; 64] = [BitBoard(0); 64];
    let mut i: usize = 0;
    while i < 64
        invariant
            i <= 64,
            forall|a: int, b: int| 0 <= a < i ==> #[trigger] table[a].has(b) == reaches(pattern, a, b),
        decreases 64 - i,
    {
        table[i] = lookup(pattern, i);
        i += 1;
    }
    table
}

/// King attacks for every origin square.
pub fn generate_king_lookup() -> (r: [BitBoard; 64])
    ensures
        forall|a: int, b: int| 0 <= a < 64 ==> #[trigger] r[a].has(b) == (on_board(b) && king_step(a, b)),
{
    generate(Pattern::King)
}

/// Unblocked queen rays for every origin square.
pub fn generate_queen_lookup() -> (r: [BitBoard; 64])
    ensures
        forall|a: int, b: int| 0 <= a < 64 ==> #[trigger] r[a].has(b) == (on_board(b) && queen_line(a, b)),
{
    generate(Pattern::Queen)
}

/// Unblocked rook rays for every origin square.
pub fn generate_rook_lookup() -> (r: [BitBoard; 64])
    ensures
        forall|a: int, b: int| 0 <= a < 64 ==> #[trigger] r[a].has(b) == (on_board(b) && rook_line(a, b)),
{
    generate(Pattern::Rook)
}

/// Unblocked bishop rays for every origin square.
pub fn generate_bishop_lookup() -> (r: [BitBoard; 64])
    ensures
        forall|a: int, b: int| 0 <= a < 64 ==> #[trigger] r[a].has(b) == (on_board(b) && bishop_line(a, b)),
{
    generate(Pattern::Bishop)
}

/// Knight attacks for every origin square.
pub fn generate_knight_lookup() -> (r: [BitBoard; 64])
    ensures
        forall|a: int, b: int| 0 <= a < 64 ==> #[trigger] r[a].has(b) == (on_board(b) && knight_step(a, b)),
{
    generate(Pattern::Knight)
}

/// White pawn attacks for every origin square.
pub fn generate_white_pawn_lookup() -> (r: [BitBoard; 64])
    ensures
        forall|a: int, b: int| 0 <= a < 64 ==> #[trigger] r[a].has(b) == (on_board(b) && white_pawn_step(a, b)),
{
    generate(Pattern::WhitePawn)
}

/// Black pawn attacks for every origin square.
pub fn generate_black_pawn_lookup() -> (r: [BitBoard; 64])
    ensures
        forall|a: int, b: int| 0 <= a < 64 ==> #[trigger] r[a].has(b) == (on_board(b) && black_pawn_step(a, b)),
{
    generate(Pattern::BlackPawn)
}

/// King attacks are mutual: a king on `a` attacks `b` iff one on `b` attacks `a`.
pub proof fn lemma_king_symmetric(a: int, b: int)
    ensures
        king_step(a, b) == king_step(b, a),
{
}

/// Knight attacks are mutual: a knight on `a` attacks `b` iff one on `b` attacks `a`.
pub proof fn lemma_knight_symmetric(a: int, b: int)
    ensures
        knight_step(a, b) == knight_step(b, a),
{
}

/// A black pawn on `b` attacks `a` exactly when a white pawn on `a` attacks `b`.
pub proof fn lemma_pawn_attacks_mirror(a: int, b: int)
    ensures
        white_pawn_step(a, b) == black_pawn_step(b, a),
{
}

} // verus!
