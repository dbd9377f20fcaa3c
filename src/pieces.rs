use vstd::prelude::*;
use crate::bitboard::{bit, lemma_or, lemma_single, lemma_zero, BitBoard};

verus! {

/// Kind of a chess piece.
#[derive(Clone, Copy, PartialEq, Eq, Debug, Structural)]
pub enum PieceType {
    King,
    Queen,
    Rook,
    Bishop,
    Knight,
    Pawn,
}

} // verus!
verus! {

/// Piece placement: one board per piece kind and one per color.
#[derive(Debug, Clone, Copy, PartialEq, Eq, Structural)]
pub struct Pieces {
    pub king: BitBoard,
    pub queen: BitBoard,
    pub rook: BitBoard,
    pub bishop: BitBoard,
    pub knight: BitBoard,
    pub pawn: BitBoard,
    pub white: BitBoard,
    pub black: BitBoard,
}

/// Error for a malformed piece-placement field.
#[derive(Debug, PartialEq, Eq)]
pub struct ParseFenError;

/// `K`: a white king.
pub const WHITE_KING: u8 = 75;

/// `Q`: a white queen.
pub const WHITE_QUEEN: u8 = 81;

/// `R`: a white rook.
pub const WHITE_ROOK: u8 = 82;

/// `B`: a white bishop.
pub const WHITE_BISHOP: u8 = 66;

/// `N`: a white knight.
pub const WHITE_KNIGHT: u8 = 78;

/// `P`: a white pawn.
pub const WHITE_PAWN: u8 = 80;

/// `k`: a black king.
pub const BLACK_KING: u8 = 107;

/// `q`: a black queen.
pub const BLACK_QUEEN: u8 = 113;

/// `r`: a black rook.
pub const BLACK_ROOK: u8 = 114;

/// `b`: a black bishop.
pub const BLACK_BISHOP: u8 = 98;

/// `n`: a black knight.
pub const BLACK_KNIGHT: u8 = 110;

/// `p`: a black pawn.
pub const BLACK_PAWN: u8 = 112;

/// `/`, between ranks.
pub const SLASH: u8 = 47;

/// The space between the fields of a record.
pub const SPACE: u8 = 32;

/// `0`.
pub const DIGIT_ZERO: u8 = 48;

/// `1`.
pub const DIGIT_ONE: u8 = 49;

/// `8`.
pub const DIGIT_EIGHT: u8 = 56;

/// `a`, the first lower-case letter.
pub const LOWER_A: u8 = 97;

/// The squares holding a piece written as byte `c` in a placement.
pub open spec fn at(placed: Set<(int, u8)>, s: int, c: u8) -> bool {
    placed.contains((s, c))
}

/// The boards of `p` hold exactly the pieces of `placed`, a set of
/// (square, piece letter) pairs: upper case for White, lower case for Black.
pub open spec fn pieces_match(p: Pieces, placed: Set<(int, u8)>) -> bool {
    &&& forall|s: int| #[trigger] p.king.has(s) == (0 <= s < 64 && (at(placed, s, WHITE_KING) || at(placed, s, BLACK_KING)))
    &&& forall|s: int| #[trigger] p.queen.has(s) == (0 <= s < 64 && (at(placed, s, WHITE_QUEEN) || at(placed, s, BLACK_QUEEN)))
    &&& forall|s: int| #[trigger] p.rook.has(s) == (0 <= s < 64 && (at(placed, s, WHITE_ROOK) || at(placed, s, BLACK_ROOK)))
    &&& forall|s: int| #[trigger] p.bishop.has(s) == (0 <= s < 64 && (at(placed, s, WHITE_BISHOP) || at(placed, s, BLACK_BISHOP)))
    &&& forall|s: int| #[trigger] p.knight.has(s) == (0 <= s < 64 && (at(placed, s, WHITE_KNIGHT) || at(placed, s, BLACK_KNIGHT)))
    &&& forall|s: int| #[trigger] p.pawn.has(s) == (0 <= s < 64 && (at(placed, s, WHITE_PAWN) || at(placed, s, BLACK_PAWN)))
    &&& forall|s: int| #[trigger] p.white.has(s) == (0 <= s < 64 && (at(placed, s, WHITE_KING) || at(placed, s, WHITE_QUEEN) || at(placed, s, WHITE_ROOK) || at(placed, s, WHITE_BISHOP)
            || at(placed, s, WHITE_KNIGHT) || at(placed, s, WHITE_PAWN)))
    &&& forall|s: int| #[trigger] p.black.has(s) == (0 <= s < 64 && (at(placed, s, BLACK_KING) || at(placed, s, BLACK_QUEEN) || at(placed, s, BLACK_ROOK) || at(placed, s, BLACK_BISHOP)
            || at(placed, s, BLACK_KNIGHT) || at(placed, s, BLACK_PAWN)))
}

/// A piece letter: K Q R B N P for White, k q r b n p for Black.
pub open spec fn is_piece_letter(c: u8) -> bool {
    c == WHITE_KING || c == WHITE_QUEEN || c == WHITE_ROOK || c == WHITE_BISHOP || c == WHITE_KNIGHT || c == WHITE_PAWN || c == BLACK_KING || c == BLACK_QUEEN || c == BLACK_ROOK || c == BLACK_BISHOP || c == BLACK_KNIGHT || c == BLACK_PAWN
}

/// One byte of the placement field read in state `(rank, file, placed)`,
/// ranks counted from the top (0 is the eighth rank): `/` starts the next
/// rank, a digit 1..8 skips that many files, a piece letter takes the next
/// square; `None` for any other byte, a ninth rank, or a rank over 8 files.
pub open spec fn step(state: (int, int, Set<(int, u8)>), c: u8) -> Option<(int, int, Set<(int, u8)>)> {
    let (rank, file, placed) = state;
    if c == SLASH {
        if rank < 7 {
            Some((rank + 1, 0, placed))
        } else {
            None
        }
    } else if DIGIT_ONE <= c <= DIGIT_EIGHT {
        if file + (c - DIGIT_ZERO) <= 8 {
            Some((rank, file + (c - DIGIT_ZERO), placed))
        } else {
            None
        }
    } else if is_piece_letter(c) {
        if file < 8 {
            Some((rank, file + 1, placed.insert(((7 - rank) * 8 + file, c))))
        } else {
            None
        }
    } else {
        None
    }
}

/// The state after the first `n` bytes of `b`, or `None` once one was refused.
pub open spec fn layout(b: Seq<u8>, n: int) -> Option<(int, int, Set<(int, u8)>)>
    decreases n,
{
    if n <= 0 {
        Some((0, 0, Set::empty()))
    } else {
        match layout(b, n - 1) {
            Some(state) => step(state, b[n - 1]),
            None => None,
        }
    }
}

/// Index of the first space in `b` at or after `i`, or the length of `b`.
pub open spec fn field_end(b: Seq<u8>, i: int) -> int
    decreases b.len() - i,
{
    if i >= b.len() {
        b.len() as int
    } else if b[i] == SPACE {
        i
    } else {
        field_end(b, i + 1)
    }
}

/// A refused prefix stays refused.
proof fn lemma_layout_refused(b: Seq<u8>, m: int, n: int)
    requires
        0 <= m <= n,
        layout(b, m) is None,
    ensures
        layout(b, n) is None,
    decreases n - m,
{
    if m < n {
        lemma_layout_refused(b, m + 1, n);
    }
}

proof fn lemma_field_end_from(b: Seq<u8>, i: int)
    requires
        0 <= i <= b.len(),
    ensures
        i <= field_end(b, i) <= b.len(),
    decreases b.len() - i,
{
    if i < b.len() {
        lemma_field_end_from(b, i + 1);
    }
}

/// A byte refused before the first space refuses the whole field.
proof fn lemma_refused_at(b: Seq<u8>, i: int)
    requires
        0 <= i < b.len(),
        b[i] != SPACE,
        forall|j: int| 0 <= j < i ==> b[j] != SPACE,
        layout(b, i + 1) is None,
    ensures
        layout(b, field_end(b, 0)) is None,
{
    lemma_field_end(b, i);
    lemma_field_end_from(b, i + 1);
    lemma_layout_refused(b, i + 1, field_end(b, 0));
}

proof fn lemma_field_end(b: Seq<u8>, i: int)
    requires
        0 <= i <= b.len(),
        forall|j: int| 0 <= j < i ==> b[j] != SPACE,
    ensures
        field_end(b, 0) == field_end(b, i),
    decreases i,
{
    if i > 0 {
        lemma_field_end(b, i - 1);
    }
}

/// Sets the bit of square `sq` in `board`.
fn with_square(board: BitBoard, sq: usize) -> (r: BitBoard)
    requires
        sq < 64,
    ensures
        forall|s: int| #[trigger] r.has(s) == (board.has(s) || s == sq),
{
    proof {
        lemma_single(sq as u64);
        lemma_or(board.0, 1u64 << (sq as u64));
    }
    BitBoard(board.0 | (1u64 << (sq as u64)))
}

/// Places the piece with letter `c` on square `sq`.
fn place(p: Pieces, sq: usize, c: u8, placed: Ghost<Set<(int, u8)>>) -> (r: Pieces)
    requires
        sq < 64,
        is_piece_letter(c),
        pieces_match(p, placed@),
    ensures
        pieces_match(r, placed@.insert((sq as int, c))),
{
    let mut r = p;
    if c == WHITE_KING || c == BLACK_KING {
        r.king = with_square(r.king, sq);
    } else if c == WHITE_QUEEN || c == BLACK_QUEEN {
        r.queen = with_square(r.queen, sq);
    } else if c == WHITE_ROOK || c == BLACK_ROOK {
        r.rook = with_square(r.rook, sq);
    } else if c == WHITE_BISHOP || c == BLACK_BISHOP {
        r.bishop = with_square(r.bishop, sq);
    } else if c == WHITE_KNIGHT || c == BLACK_KNIGHT {
        r.knight = with_square(r.knight, sq);
    } else {
        r.pawn = with_square(r.pawn, sq);
    }
    if c < LOWER_A {
        r.white = with_square(r.white, sq);
    } else {
        r.black = with_square(r.black, sq);
    }
    proof {
        let placed = placed@;
        let np = placed.insert((sq as int, c));
        assert forall|s: int| #[trigger] r.king.has(s) == (0 <= s < 64 && (at(np, s, WHITE_KING) || at(np, s, BLACK_KING))) by {
            assert(p.king.has(s) == (0 <= s < 64 && (at(placed, s, WHITE_KING) || at(placed, s, BLACK_KING))));
        }
        assert forall|s: int| #[trigger] r.queen.has(s) == (0 <= s < 64 && (at(np, s, WHITE_QUEEN) || at(np, s, BLACK_QUEEN))) by {
            assert(p.queen.has(s) == (0 <= s < 64 && (at(placed, s, WHITE_QUEEN) || at(placed, s, BLACK_QUEEN))));
        }
        assert forall|s: int| #[trigger] r.rook.has(s) == (0 <= s < 64 && (at(np, s, WHITE_ROOK) || at(np, s, BLACK_ROOK))) by {
            assert(p.rook.has(s) == (0 <= s < 64 && (at(placed, s, WHITE_ROOK) || at(placed, s, BLACK_ROOK))));
        }
        assert forall|s: int| #[trigger] r.bishop.has(s) == (0 <= s < 64 && (at(np, s, WHITE_BISHOP) || at(np, s, BLACK_BISHOP))) by {
            assert(p.bishop.has(s) == (0 <= s < 64 && (at(placed, s, WHITE_BISHOP) || at(placed, s, BLACK_BISHOP))));
        }
        assert forall|s: int| #[trigger] r.knight.has(s) == (0 <= s < 64 && (at(np, s, WHITE_KNIGHT) || at(np, s, BLACK_KNIGHT))) by {
            assert(p.knight.has(s) == (0 <= s < 64 && (at(placed, s, WHITE_KNIGHT) || at(placed, s, BLACK_KNIGHT))));
        }
        assert forall|s: int| #[trigger] r.pawn.has(s) == (0 <= s < 64 && (at(np, s, WHITE_PAWN) || at(np, s, BLACK_PAWN))) by {
            assert(p.pawn.has(s) == (0 <= s < 64 && (at(placed, s, WHITE_PAWN) || at(placed, s, BLACK_PAWN))));
        }
        assert forall|s: int| #[trigger] r.white.has(s) == (0 <= s < 64 && (at(np, s, WHITE_KING) || at(np, s, WHITE_QUEEN) || at(np, s, WHITE_ROOK) || at(np, s, WHITE_BISHOP)
            || at(np, s, WHITE_KNIGHT) || at(np, s, WHITE_PAWN))) by {
            assert(p.white.has(s) == (0 <= s < 64 && (at(placed, s, WHITE_KING) || at(placed, s, WHITE_QUEEN) || at(placed, s, WHITE_ROOK) || at(placed, s, WHITE_BISHOP)
            || at(placed, s, WHITE_KNIGHT) || at(placed, s, WHITE_PAWN))));
        }
        assert forall|s: int| #[trigger] r.black.has(s) == (0 <= s < 64 && (at(np, s, BLACK_KING) || at(np, s, BLACK_QUEEN) || at(np, s, BLACK_ROOK) || at(np, s, BLACK_BISHOP)
            || at(np, s, BLACK_KNIGHT) || at(np, s, BLACK_PAWN))) by {
            assert(p.black.has(s) == (0 <= s < 64 && (at(placed, s, BLACK_KING) || at(placed, s, BLACK_QUEEN) || at(placed, s, BLACK_ROOK) || at(placed, s, BLACK_BISHOP)
            || at(placed, s, BLACK_KNIGHT) || at(placed, s, BLACK_PAWN))));
        }
    }
    r
}

/// Reads the piece-placement field at the start of `b`, up to the first
/// space: ranks from the eighth down to the first, separated by `/`, each
/// from the a-file on, with digits for runs of empty squares.
pub fn parse_placement(b: &[u8]) -> (r: Result<Pieces, ParseFenError>)
    ensures
        match r {
            Ok(p) => layout(b@, field_end(b@, 0)) matches Some(st) && pieces_match(p, st.2),
            Err(_) => layout(b@, field_end(b@, 0)) is None,
        },
{
    let mut pieces = Pieces {
        king: BitBoard(0),
        queen: BitBoard(0),
        rook: BitBoard(0),
        bishop: BitBoard(0),
        knight: BitBoard(0),
        pawn: BitBoard(0),
        white: BitBoard(0),
        black: BitBoard(0),
    };
    let mut rank: usize = 0;
    let mut file: usize = 0;
    let ghost mut placed: Set<(int, u8)> = Set::empty();
    proof {
        lemma_zero();
        assert(pieces_match(pieces, placed));
    }
    let mut i: usize = 0;
    while i < b.len() && b[i] != SPACE
        invariant
            0 <= i <= b@.len(),
            forall|j: int| 0 <= j < i ==> b@[j] != SPACE,
            layout(b@, i as int) == Some((rank as int, file as int, placed)),
            rank < 8,
            file <= 8,
            pieces_match(pieces, placed),
        decreases b@.len() - i,
    {
        let c = b[i];
        if c == SLASH {
            if rank < 7 {
                rank = rank + 1;
                file = 0;
            } else {
                proof {
                    lemma_refused_at(b@, i as int);
                }
                return Err(ParseFenError);
            }
        } else if DIGIT_ONE <= c && c <= DIGIT_EIGHT {
            if file + (c - DIGIT_ZERO) as usize <= 8 {
                file = file + (c - DIGIT_ZERO) as usize;
            } else {
                proof {
                    lemma_refused_at(b@, i as int);
                }
                return Err(ParseFenError);
            }
        } else if c == WHITE_KING || c == WHITE_QUEEN || c == WHITE_ROOK || c == WHITE_BISHOP || c == WHITE_KNIGHT || c == WHITE_PAWN || c == BLACK_KING || c == BLACK_QUEEN || c == BLACK_ROOK || c == BLACK_BISHOP || c == BLACK_KNIGHT || c == BLACK_PAWN {
            if file < 8 {
                let sq = (7 - rank) * 8 + file;
                pieces = place(pieces, sq, c, Ghost(placed));
                proof {
                    placed = placed.insert((sq as int, c));
                }
                file = file + 1;
            } else {
                proof {
                    lemma_refused_at(b@, i as int);
                }
                return Err(ParseFenError);
            }
        } else {
            proof {
                lemma_refused_at(b@, i as int);
            }
            return Err(ParseFenError);
        }
        i += 1;
    }
    proof {
        lemma_field_end(b@, i as int);
    }
    Ok(pieces)
}

impl core::str::FromStr for Pieces {
    type Err = ParseFenError;

    fn from_str(s: &str) -> Result<Pieces, ParseFenError> {
        parse_placement(s.as_bytes())
    }
}

} // verus!
