use vstd::prelude::*;
use crate::bitboard::{
    bit, lemma_and, lemma_ext, lemma_full, lemma_lowest, lemma_not, lemma_or, lemma_single,
    lemma_zero, lowest, BitBoard,
};
use crate::color::Color;
use crate::gamestate::{field, field_bounds, has_byte, has_field, en_passant_of, GameState};
use crate::lookup::{
    bishop_line, bishop_lookup, black_pawn_lookup, black_pawn_step, d_file, d_rank,
    knight_lookup, knight_step, on_board, rook_line, rook_lookup, white_pawn_lookup,
    white_pawn_step,
};
use crate::moves::{between_rays, strictly_between};
use crate::pieces::{
    field_end, layout, parse_placement, pieces_match, PieceType, Pieces, BLACK_KING, BLACK_QUEEN,
    DIGIT_ZERO, WHITE_KING, WHITE_QUEEN,
};
use crate::pin::{Axis, PinMask};

verus! {

/// A position: piece placement, side to move, move counters and the
/// castling / en-passant state.
#[derive(Debug, Clone, Copy, PartialEq, Eq)]
pub struct Board {
    pub pieces: Pieces,
    pub side_to_move: Color,
    pub halfmoves: usize,
    pub fullmoves: usize,
    pub state: GameState,
}

impl Default for Board {
    /// The standard starting position, White to move, all castling rights,
    /// no en-passant square, counters 0 and 1.
    fn default() -> (r: Board)
        ensures
            r.pieces == (Pieces {
                king: BitBoard(0x1000_0000_0000_0010u64),
                queen: BitBoard(0x0800_0000_0000_0008u64),
                rook: BitBoard(0x8100_0000_0000_0081u64),
                bishop: BitBoard(0x2400_0000_0000_0024u64),
                knight: BitBoard(0x4200_0000_0000_0042u64),
                pawn: BitBoard(0x00ff_0000_0000_ff00u64),
                white: BitBoard(0x0000_0000_0000_ffffu64),
                black: BitBoard(0xffff_0000_0000_0000u64),
            }),
            r.side_to_move == Color::White,
            r.halfmoves == 0,
            r.fullmoves == 1,
            r.state.spec_castling() == (true, true, true, true),
            r.state.spec_en_passant() is None,
    {
        Board {
            pieces: Pieces {
                king: BitBoard(0x1000_0000_0000_0010u64),
                queen: BitBoard(0x0800_0000_0000_0008u64),
                rook: BitBoard(0x8100_0000_0000_0081u64),
                bishop: BitBoard(0x2400_0000_0000_0024u64),
                knight: BitBoard(0x4200_0000_0000_0042u64),
                pawn: BitBoard(0x00ff_0000_0000_ff00u64),
                white: BitBoard(0x0000_0000_0000_ffffu64),
                black: BitBoard(0xffff_0000_0000_0000u64),
            },
            side_to_move: Color::White,
            halfmoves: 0,
            fullmoves: 1,
            state: GameState::new((true, true, true, true), None),
        }
    }
}

/// Error for a malformed position record.
pub struct ParseFenError;

/// `w`, White to move.
pub const SIDE_WHITE: u8 = 119;

/// `W`, White to move.
pub const SIDE_WHITE_UPPER: u8 = 87;

/// `b`, Black to move.
pub const SIDE_BLACK: u8 = 98;

/// `B`, Black to move.
pub const SIDE_BLACK_UPPER: u8 = 66;

/// `9`.
pub const DIGIT_NINE: u8 = 57;

/// The side-to-move field: `w` or `b`, in either case.
pub open spec fn side_of(f: Seq<u8>) -> Option<Color> {
    if f.len() == 1 && (f[0] == SIDE_WHITE || f[0] == SIDE_WHITE_UPPER) {
        Some(Color::White)
    } else if f.len() == 1 && (f[0] == SIDE_BLACK || f[0] == SIDE_BLACK_UPPER) {
        Some(Color::Black)
    } else {
        None
    }
}

/// A move counter field: its first byte, a decimal digit.
pub open spec fn counter_of(f: Seq<u8>) -> Option<usize> {
    if f.len() >= 1 && DIGIT_ZERO <= f[0] <= DIGIT_NINE {
        Some((f[0] - DIGIT_ZERO) as usize)
    } else {
        None
    }
}

/// `b` is a position record whose fields read as `board`.
pub open spec fn reads_as(b: Seq<u8>, board: Board) -> bool {
    &&& layout(b, field_end(b, 0)) matches Some(st) && pieces_match(board.pieces, st.2)
    &&& has_field(b, 5)
    &&& side_of(field(b, 1)) == Some(board.side_to_move)
    &&& board.state.spec_castling() == (
        has_byte(field(b, 2), WHITE_QUEEN),
        has_byte(field(b, 2), WHITE_KING),
        has_byte(field(b, 2), BLACK_QUEEN),
        has_byte(field(b, 2), BLACK_KING),
    )
    &&& en_passant_of(field(b, 3)) == Some(board.state.spec_en_passant())
    &&& counter_of(field(b, 4)) == Some(board.halfmoves)
    &&& counter_of(field(b, 5)) == Some(board.fullmoves)
}

/// `b` is a well-formed position record.
pub open spec fn well_formed(b: Seq<u8>) -> bool {
    &&& layout(b, field_end(b, 0)) is Some
    &&& has_field(b, 5)
    &&& side_of(field(b, 1)) is Some
    &&& en_passant_of(field(b, 3)) is Some
    &&& counter_of(field(b, 4)) is Some
    &&& counter_of(field(b, 5)) is Some
}

/// The counter in the `n`-th field of `b`.
fn read_counter(b: &[u8], n: usize) -> (r: Option<usize>)
    ensures
        r == (if has_field(b@, n as nat) {
            counter_of(field(b@, n as nat))
        } else {
            None
        }),
{
    match field_bounds(b, n) {
        Some((s, e)) => {
            proof {
                let f = b@.subrange(s as int, e as int);
                if f.len() >= 1 {
                    assert(f[0] == b@[s as int]);
                }
            }
            if e > s && DIGIT_ZERO <= b[s] && b[s] <= DIGIT_NINE {
                Some((b[s] - DIGIT_ZERO) as usize)
            } else {
                None
            }
        },
        None => None,
    }
}

impl Board {
    /// Reads a position record: piece placement, side to move, castling
    /// rights, en-passant square, half-move and full-move counters, separated
    /// by single spaces.
    pub fn parse(b: &[u8]) -> (r: Result<Board, ParseFenError>)
        ensures
            r is Ok == well_formed(b@),
            r matches Ok(board) ==> reads_as(b@, board),
    {
        let pieces = match parse_placement(b) {
            Ok(p) => p,
            Err(_) => return Err(ParseFenError),
        };
        let state = match GameState::parse(b) {
            Ok(g) => g,
            Err(_) => return Err(ParseFenError),
        };
        let side_to_move = match field_bounds(b, 1) {
            Some((s, e)) => {
                proof {
                    let f = b@.subrange(s as int, e as int);
                    if f.len() >= 1 {
                        assert(f[0] == b@[s as int]);
                    }
                }
                if e - s == 1 && (b[s] == SIDE_WHITE || b[s] == SIDE_WHITE_UPPER) {
                    Color::White
                } else if e - s == 1 && (b[s] == SIDE_BLACK || b[s] == SIDE_BLACK_UPPER) {
                    Color::Black
                } else {
                    return Err(ParseFenError);
                }
            },
            None => {
                proof {
                    crate::gamestate::lemma_later_fields_missing(b@, 1, 5);
                }
                return Err(ParseFenError);
            },
        };
        let halfmoves = match read_counter(b, 4) {
            Some(h) => h,
            None => {
                proof {
                    if !has_field(b@, 4) {
                        crate::gamestate::lemma_later_fields_missing(b@, 4, 5);
                    }
                }
                return Err(ParseFenError);
            },
        };
        let fullmoves = match read_counter(b, 5) {
            Some(f) => f,
            None => return Err(ParseFenError),
        };
        Ok(Board { pieces, side_to_move, halfmoves, fullmoves, state })
    }
}

impl core::str::FromStr for Board {
    type Err = ParseFenError;

    fn from_str(s: &str) -> Result<Board, ParseFenError> {
        Board::parse(s.as_bytes())
    }
}

pub open spec fn opponent(color: Color) -> Color {
    match color {
        Color::White => Color::Black,
        Color::Black => Color::White,
    }
}

/// The axis through king square `k` on which square `p` lies, if any.
pub open spec fn axis_of(k: int, p: int) -> Option<Axis> {
    if d_rank(k, p) == 0 {
        Some(Axis::Horizontal)
    } else if d_file(k, p) == 0 {
        Some(Axis::Vertical)
    } else if d_rank(k, p) == d_file(k, p) {
        Some(Axis::Rising)
    } else if d_rank(k, p) == -d_file(k, p) {
        Some(Axis::Falling)
    } else {
        None
    }
}

/// The highest pinner below square `i` that lies on `axis` through `k`, or -1.
pub open spec fn last_pinner(pinners: BitBoard, k: int, axis: Axis, i: int) -> int
    decreases i,
{
    if i <= 0 {
        -1
    } else if pinners.has(i - 1) && axis_of(k, i - 1) == Some(axis) {
        i - 1
    } else {
        last_pinner(pinners, k, axis, i - 1)
    }
}

/// Some checker below square `i` is on `s`, or has `s` between it and the
/// king square `k`.
pub open spec fn covered_below(checkers: BitBoard, k: int, s: int, i: int) -> bool {
    exists|c: int| 0 <= c < i && #[trigger] checkers.has(c) && (s == c || strictly_between(c, k, s))
}

/// Square `s` resolves the check given by `checkers` against the king on `k`:
/// any square but the king's when nothing checks, else a checker's square or
/// a square between a checker and the king.
pub open spec fn in_checkmask(checkers: BitBoard, k: int, s: int) -> bool {
    on_board(s) && s != k && (checkers.0 == 0 || covered_below(checkers, k, s, 64))
}

fn axis(k: usize, p: usize) -> (r: Axis)
    requires
        k < 64,
        p < 64,
        axis_of(k as int, p as int) is Some,
    ensures
        axis_of(k as int, p as int) == Some(r),
{
    let dr = (p / 8) as i64 - (k / 8) as i64;
    let df = (p % 8) as i64 - (k % 8) as i64;
    if dr == 0 {
        Axis::Horizontal
    } else if df == 0 {
        Axis::Vertical
    } else if dr == df {
        Axis::Rising
    } else {
        Axis::Falling
    }
}

impl Board {
    /// A piece of `color` pinned by `p` against the king on `k` may move to `s`:
    /// a square between them or the pinner's own, not held by `color`.
    pub open spec fn pin_ray(self, color: Color, k: int, p: int, s: int) -> bool {
        on_board(s) && (strictly_between(k, p, s) || s == p) && !bit(self.color_bits(color), s)
    }

    /// `m` is the pin ray of the last pinner below `i` on `axis`, or empty.
    pub open spec fn pin_axis(
        self,
        color: Color,
        pinners: BitBoard,
        axis: Axis,
        i: int,
        m: BitBoard,
    ) -> bool {
        let k = self.king_square(color);
        let p = last_pinner(pinners, k, axis, i);
        forall|s: int| #[trigger] m.has(s) == (p >= 0 && self.pin_ray(color, k, p, s))
    }

    /// The squares of `color`'s pieces.
    pub open spec fn color_bits(self, color: Color) -> u64 {
        match color {
            Color::White => self.pieces.white.0,
            Color::Black => self.pieces.black.0,
        }
    }

    /// `color` has a king on the board.
    pub open spec fn has_king(self, color: Color) -> bool {
        self.color_bits(color) & self.pieces.king.0 != 0
    }

    /// The square of `color`'s king (its lowest one, should there be several).
    pub open spec fn king_square(self, color: Color) -> int {
        lowest(self.color_bits(color) & self.pieces.king.0)
    }

    pub open spec fn occupied_at(self, s: int) -> bool {
        self.pieces.white.has(s) || self.pieces.black.has(s)
    }

    /// An enemy of `color` stands on `s`.
    pub open spec fn enemy_at(self, color: Color, s: int) -> bool {
        bit(self.color_bits(opponent(color)), s)
    }

    /// A piece on `s` slides along the line from `s` to the king square `k`.
    pub open spec fn slider_towards(self, k: int, s: int) -> bool {
        (rook_line(k, s) && (self.pieces.rook.has(s) || self.pieces.queen.has(s))) || (
        bishop_line(k, s) && (self.pieces.bishop.has(s) || self.pieces.queen.has(s)))
    }

    /// Square `t` is occupied and strictly between `s` and `k`.
    pub open spec fn blocker(self, k: int, s: int, t: int) -> bool {
        strictly_between(s, k, t) && self.occupied_at(t)
    }

    /// No occupied square lies strictly between `s` and `k`.
    pub open spec fn clear_between(self, k: int, s: int) -> bool {
        forall|t: int| !#[trigger] self.blocker(k, s, t)
    }

    /// Exactly one occupied square lies strictly between `s` and `k`.
    pub open spec fn one_between(self, k: int, s: int) -> bool {
        exists|t: int|
            #[trigger] self.blocker(k, s, t) && forall|u: int| #[trigger]
                self.blocker(k, s, u) ==> u == t
    }

    /// A pawn of the enemy of `color` on `s` attacks the king square `k`.
    pub open spec fn pawn_attack_step(color: Color, k: int, s: int) -> bool {
        match color {
            Color::White => white_pawn_step(k, s),
            Color::Black => black_pawn_step(k, s),
        }
    }

    /// The enemy piece on `s` attacks `color`'s king now.
    pub open spec fn is_checker(self, color: Color, s: int) -> bool {
        let k = self.king_square(color);
        &&& on_board(s)
        &&& self.enemy_at(color, s)
        &&& {
            ||| (self.slider_towards(k, s) && self.clear_between(k, s))
            ||| (self.pieces.knight.has(s) && knight_step(k, s))
            ||| (self.pieces.pawn.has(s) && Self::pawn_attack_step(color, k, s))
        }
    }

    /// The enemy slider on `s` would attack `color`'s king were its one
    /// blocker removed.
    pub open spec fn is_pinner(self, color: Color, s: int) -> bool {
        let k = self.king_square(color);
        on_board(s) && self.enemy_at(color, s) && self.slider_towards(k, s) && self.one_between(
            k,
            s,
        )
    }

    /// The board of `color`'s pieces.
    pub fn colors(&self, color: Color) -> (r: BitBoard)
        ensures
            r.0 == self.color_bits(color),
    {
        match color {
            Color::White => self.pieces.white,
            Color::Black => self.pieces.black,
        }
    }

    /// The board of the pieces of kind `piece_type`, of both colors.
    pub fn pieces(&self, piece_type: PieceType) -> (r: BitBoard)
        ensures
            r == match piece_type {
                PieceType::King => self.pieces.king,
                PieceType::Queen => self.pieces.queen,
                PieceType::Rook => self.pieces.rook,
                PieceType::Bishop => self.pieces.bishop,
                PieceType::Knight => self.pieces.knight,
                PieceType::Pawn => self.pieces.pawn,
            },
    {
        match piece_type {
            PieceType::King => self.pieces.king,
            PieceType::Queen => self.pieces.queen,
            PieceType::Rook => self.pieces.rook,
            PieceType::Bishop => self.pieces.bishop,
            PieceType::Knight => self.pieces.knight,
            PieceType::Pawn => self.pieces.pawn,
        }
    }

    /// Every occupied square.
    pub fn occupied(&self) -> (r: BitBoard)
        ensures
            r.0 == self.pieces.white.0 | self.pieces.black.0,
            forall|s: int| #[trigger] r.has(s) == self.occupied_at(s),
    {
        proof {
            lemma_or(self.pieces.white.0, self.pieces.black.0);
        }
        BitBoard(self.pieces.white.0 | self.pieces.black.0)
    }

    /// Squares a pawn of `color` on `piece_index` attacks.
    pub fn pawn_attacks(&self, piece_index: usize, color: Color) -> (r: BitBoard)
        requires
            piece_index < 64,
        ensures
            forall|s: int| #[trigger]
                r.has(s) == (on_board(s) && Self::pawn_attack_step(color, piece_index as int, s)),
    {
        match color {
            Color::White => white_pawn_lookup(piece_index),
            Color::Black => black_pawn_lookup(piece_index),
        }
    }

    /// `x` holds the blockers between `s` and `k`: it is zero exactly when
    /// the line is clear, and a single bit exactly when one piece blocks it.
    proof fn lemma_blockers(self, k: int, s: int, x: u64)
        requires
            forall|t: int| #[trigger] bit(x, t) == self.blocker(k, s, t),
        ensures
            (x == 0) == self.clear_between(k, s),
            (x != 0 && x == 1u64 << (lowest(x) as u64)) == self.one_between(k, s),
    {
        lemma_zero();
        if x == 0 {
            assert forall|t: int| !#[trigger] self.blocker(k, s, t) by {
                assert(!bit(x, t));
            }
        } else {
            lemma_lowest(x);
            let b = lowest(x);
            assert(self.blocker(k, s, b));
            lemma_single(b as u64);
            if x == 1u64 << (b as u64) {
                assert forall|u: int| #[trigger] self.blocker(k, s, u) implies u == b by {
                    assert(bit(x, u));
                }
                assert(self.blocker(k, s, b) && forall|u: int| #[trigger]
                    self.blocker(k, s, u) ==> u == b);
            } else if self.one_between(k, s) {
                let t = choose|t: int|
                    #[trigger] self.blocker(k, s, t) && forall|u: int| #[trigger]
                        self.blocker(k, s, u) ==> u == t;
                assert(t == b);
                assert forall|i: int| 0 <= i < 64 implies #[trigger] bit(x, i) == bit(
                    1u64 << (b as u64),
                    i,
                ) by {
                    if bit(x, i) {
                        assert(self.blocker(k, s, i));
                    }
                }
                lemma_ext(x, 1u64 << (b as u64));
            }
        }
    }

    /// Whether the line from `s` to the king square `k` is clear, and
    /// whether exactly one piece blocks it.
    fn line_blockers(&self, k: usize, s: usize, occupied: BitBoard) -> (r: (bool, bool))
        requires
            k < 64,
            s < 64,
            forall|t: int| #[trigger] occupied.has(t) == self.occupied_at(t),
        ensures
            r.0 == self.clear_between(k as int, s as int),
            r.1 == self.one_between(k as int, s as int),
    {
        proof {
            lowest_of_single(s as u64);
            lowest_of_single(k as u64);
        }
        let ray = between_rays(BitBoard::new(s), BitBoard::new(k));
        let blockers = ray.0 & occupied.0;
        proof {
            lemma_and(ray.0, occupied.0);
            assert forall|t: int| #[trigger] bit(blockers, t) == self.blocker(k as int, s as int, t) by {
                assert(ray.has(t) == strictly_between(s as int, k as int, t));
                assert(occupied.has(t) == self.occupied_at(t));
            }
            self.lemma_blockers(k as int, s as int, blockers);
        }
        if blockers == 0 {
            (true, false)
        } else {
            let b = blockers.trailing_zeros();
            proof {
                lemma_lowest(blockers);
            }
            (false, blockers == 1u64 << (b as u64))
        }
    }

    /// Enemy pieces attacking `color`'s king (checkers), and enemy sliders
    /// with exactly one piece between them and that king (pinners).
    pub fn checkers_pinners(&self, color: Color) -> (r: (BitBoard, BitBoard))
        requires
            self.has_king(color),
        ensures
            forall|s: int| #[trigger] r.0.has(s) == self.is_checker(color, s),
            forall|s: int| #[trigger] r.1.has(s) == self.is_pinner(color, s),
    {
        let own = self.colors(color).0;
        let their_pieces = match color {
            Color::White => self.pieces.black.0,
            Color::Black => self.pieces.white.0,
        };
        let our_king = own & self.pieces.king.0;
        let k = BitBoard(our_king).first();
        let ghost kk = k as int;
        let rook_board = rook_lookup(k);
        let bishop_board = bishop_lookup(k);
        let rook_rays = rook_board.0;
        let bishop_rays = bishop_board.0;
        let straight = self.pieces.rook.0 | self.pieces.queen.0;
        let diagonal = self.pieces.bishop.0 | self.pieces.queen.0;
        let attackers = (rook_rays & straight & their_pieces) | (bishop_rays & diagonal
            & their_pieces);
        let occupied = self.occupied();
        proof {
            lemma_or(self.pieces.rook.0, self.pieces.queen.0);
            lemma_or(self.pieces.bishop.0, self.pieces.queen.0);
            lemma_and(rook_rays, straight);
            lemma_and(rook_rays & straight, their_pieces);
            lemma_and(bishop_rays, diagonal);
            lemma_and(bishop_rays & diagonal, their_pieces);
            lemma_or(rook_rays & straight & their_pieces, bishop_rays & diagonal & their_pieces);
            assert forall|t: int| #[trigger]
                bit(attackers, t) == (on_board(t) && self.enemy_at(color, t)
                    && self.slider_towards(kk, t)) by {
                assert(rook_board.has(t) == (on_board(t) && rook_line(kk, t)));
                assert(bishop_board.has(t) == (on_board(t) && bishop_line(kk, t)));
                assert(bit(their_pieces, t) == self.enemy_at(color, t));
            }
            lemma_zero();
        }
        let mut checkers: u64 = 0;
        let mut pinners: u64 = 0;
        let mut s: usize = 0;
        while s < 64
            invariant
                s <= 64,
                kk == self.king_square(color),
                kk == k,
                k < 64,
                our_king == self.color_bits(color) & self.pieces.king.0,
                our_king != 0,
                lowest(our_king) == kk,
                forall|t: int| #[trigger] occupied.has(t) == self.occupied_at(t),
                forall|t: int| #[trigger]
                    bit(attackers, t) == (on_board(t) && self.enemy_at(color, t)
                        && self.slider_towards(kk, t)),
                forall|t: int| #[trigger]
                    bit(checkers, t) == (t < s && bit(attackers, t) && self.clear_between(kk, t)),
                forall|t: int| #[trigger]
                    bit(pinners, t) == (t < s && bit(attackers, t) && self.one_between(kk, t)),
            decreases 64 - s,
        {
            if (attackers >> (s as u64)) & 1u64 == 1u64 {
                let (clear, single) = self.line_blockers(k, s, occupied);
                proof {
                    lemma_single(s as u64);
                    lemma_or(checkers, 1u64 << (s as u64));
                    lemma_or(pinners, 1u64 << (s as u64));
                }
                if clear {
                    checkers = checkers | (1u64 << (s as u64));
                } else if single {
                    pinners = pinners | (1u64 << (s as u64));
                }
            }
            s += 1;
        }
        let knight_board = knight_lookup(k);
        let pawn_board = self.pawn_attacks(k, color);
        let kn = knight_board.0;
        let pw = pawn_board.0;
        let knights = kn & self.pieces.knight.0 & their_pieces;
        let pawns = pw & self.pieces.pawn.0 & their_pieces;
        proof {
            lemma_and(kn, self.pieces.knight.0);
            lemma_and(kn & self.pieces.knight.0, their_pieces);
            lemma_and(pw, self.pieces.pawn.0);
            lemma_and(pw & self.pieces.pawn.0, their_pieces);
            lemma_or(checkers, knights);
            lemma_or(checkers | knights, pawns);
            assert forall|t: int| #[trigger]
                bit(checkers | knights | pawns, t) == self.is_checker(color, t) by {
                assert(knight_board.has(t) == (on_board(t) && knight_step(kk, t)));
                assert(pawn_board.has(t) == (on_board(t) && Self::pawn_attack_step(color, kk, t)));
                assert(bit(their_pieces, t) == self.enemy_at(color, t));
                assert(bit(checkers, t) == (bit(attackers, t) && self.clear_between(kk, t)));
            }
            assert forall|t: int| #[trigger] bit(pinners, t) == self.is_pinner(color, t) by {
                assert(bit(pinners, t) == (bit(attackers, t) && self.one_between(kk, t)));
            }
        }
        (BitBoard(checkers | knights | pawns), BitBoard(pinners))
    }

    /// Squares a piece of `color` other than the king must move to in order
    /// to answer the check by `checkers`, and, per axis, the squares a piece
    /// pinned on that axis by one of `pinners` may move to.
    pub fn checkmask_pinmask(&self, color: Color, checkers: BitBoard, pinners: BitBoard) -> (r: (
        BitBoard,
        PinMask,
    ))
        requires
            self.has_king(color),
            forall|p: int| #[trigger]
                pinners.has(p) ==> axis_of(self.king_square(color), p) is Some,
        ensures
            forall|s: int| #[trigger]
                r.0.has(s) == in_checkmask(checkers, self.king_square(color), s),
            self.pin_axis(color, pinners, Axis::Horizontal, 64, r.1.h),
            self.pin_axis(color, pinners, Axis::Vertical, 64, r.1.v),
            self.pin_axis(color, pinners, Axis::Rising, 64, r.1.d1),
            self.pin_axis(color, pinners, Axis::Falling, 64, r.1.d2),
    {
        let own = self.colors(color).0;
        let our_king = own & self.pieces.king.0;
        let k = BitBoard(our_king).first();
        let checkmask = self.checkmask(k, checkers);
        proof {
            lemma_zero();
        }
        let mut pinmask = PinMask {
            h: BitBoard(0),
            v: BitBoard(0),
            d1: BitBoard(0),
            d2: BitBoard(0),
        };
        let mut p: usize = 0;
        while p < 64
            invariant
                p <= 64,
                k == self.king_square(color),
                k < 64,
                own == self.color_bits(color),
                forall|q: int| #[trigger]
                    pinners.has(q) ==> axis_of(self.king_square(color), q) is Some,
                self.pin_axis(color, pinners, Axis::Horizontal, p as int, pinmask.h),
                self.pin_axis(color, pinners, Axis::Vertical, p as int, pinmask.v),
                self.pin_axis(color, pinners, Axis::Rising, p as int, pinmask.d1),
                self.pin_axis(color, pinners, Axis::Falling, p as int, pinmask.d2),
            decreases 64 - p,
        {
            if pinners.contains(p) {
                let pin = self.pin_board(color, k, p);
                match axis(k, p) {
                    Axis::Horizontal => pinmask.h = pin,
                    Axis::Vertical => pinmask.v = pin,
                    Axis::Rising => pinmask.d1 = pin,
                    Axis::Falling => pinmask.d2 = pin,
                }
            }
            p += 1;
        }
        (checkmask, pinmask)
    }

    /// The pin ray from the king on `k` to the pinner on `p`, without the
    /// squares of `color`.
    fn pin_board(&self, color: Color, k: usize, p: usize) -> (r: BitBoard)
        requires
            k < 64,
            p < 64,
        ensures
            forall|s: int| #[trigger] r.has(s) == self.pin_ray(color, k as int, p as int, s),
    {
        proof {
            lowest_of_single(k as u64);
            lowest_of_single(p as u64);
            lemma_single(p as u64);
        }
        let ray = between_rays(BitBoard::new(k), BitBoard::new(p));
        let own = self.colors(color).0;
        let pin = (ray.0 | (1u64 << (p as u64))) & !own;
        proof {
            lemma_or(ray.0, 1u64 << (p as u64));
            lemma_not(own);
            lemma_and(ray.0 | (1u64 << (p as u64)), !own);
            assert forall|s: int| #[trigger] bit(pin, s) == self.pin_ray(color, k as int, p as int, s) by {
                assert(ray.has(s) == strictly_between(k as int, p as int, s));
            }
        }
        BitBoard(pin)
    }

    /// The check mask against the king on `k`.
    fn checkmask(&self, k: usize, checkers: BitBoard) -> (r: BitBoard)
        requires
            k < 64,
        ensures
            forall|s: int| #[trigger] r.has(s) == in_checkmask(checkers, k as int, s),
    {
        proof {
            lemma_zero();
            lemma_full();
            lowest_of_single(k as u64);
            lemma_single(k as u64);
            lemma_not(1u64 << (k as u64));
        }
        let not_king = !(1u64 << (k as u64));
        if checkers.0 == 0 {
            return BitBoard(not_king);
        }
        let mut mask: u64 = 0;
        let mut c: usize = 0;
        while c < 64
            invariant
                c <= 64,
                k < 64,
                forall|s: int| #[trigger] bit(mask, s) == (on_board(s) && covered_below(checkers, k as int, s, c as int)),
            decreases 64 - c,
        {
            if checkers.contains(c) {
                proof {
                    lowest_of_single(c as u64);
                    lowest_of_single(k as u64);
                    lemma_single(c as u64);
                }
                let ray = between_rays(BitBoard::new(c), BitBoard::new(k));
                let add = ray.0 | (1u64 << (c as u64));
                proof {
                    lemma_or(ray.0, 1u64 << (c as u64));
                    lemma_or(mask, add);
                    assert forall|s: int| #[trigger] bit(mask | add, s) == (on_board(s) && covered_below(checkers, k as int, s, c + 1)) by {
                        assert(ray.has(s) == strictly_between(c as int, k as int, s));
                        if bit(add, s) {
                            assert(checkers.has(c as int));
                        }
                        if covered_below(checkers, k as int, s, c + 1) {
                            let w = choose|w: int| 0 <= w < c + 1 && #[trigger] checkers.has(w) && (s == w || strictly_between(w, k as int, s));
                            if w < c {
                                assert(covered_below(checkers, k as int, s, c as int));
                            }
                        }
                    }
                }
                mask = mask | add;
            } else {
                proof {
                    assert forall|s: int| #[trigger] bit(mask, s) == (on_board(s) && covered_below(checkers, k as int, s, c + 1)) by {
                        if covered_below(checkers, k as int, s, c + 1) {
                            let w = choose|w: int| 0 <= w < c + 1 && #[trigger] checkers.has(w) && (s == w || strictly_between(w, k as int, s));
                            assert(covered_below(checkers, k as int, s, c as int));
                        }
                    }
                }
            }
            c += 1;
        }
        proof {
            lemma_and(mask, not_king);
        }
        BitBoard(mask & not_king)
    }

}

/// Every pinner found by `checkers_pinners` lies on one of the four axes
/// through the king, as `checkmask_pinmask` requires of its pinners.
pub proof fn lemma_pinner_on_axis(board: Board, color: Color, p: int)
    requires
        board.is_pinner(color, p),
    ensures
        axis_of(board.king_square(color), p) is Some,
{
}

/// The lowest set bit of a single-bit value is that bit.
proof fn lowest_of_single(k: u64)
    requires
        k < 64,
    ensures
        lowest(1u64 << k) == k,
        1u64 << k != 0,
{
    lemma_single(k);
    lemma_zero();
    assert(bit(1u64 << k, k as int));
    lemma_lowest(1u64 << k);
    assert(!bit(1u64 << k, lowest(1u64 << k)) || lowest(1u64 << k) == k);
}

} // verus!
