use vstd::prelude::*;
use crate::pieces::{
    field_end, BLACK_KING, BLACK_QUEEN, DIGIT_EIGHT, DIGIT_ONE, LOWER_A, SPACE, WHITE_KING,
    WHITE_QUEEN,
};

verus! {

/// Castling rights (white queen side, white king side, black queen side,
/// black king side) and the en-passant target square, if any.
#[derive(Debug, Clone, Copy, PartialEq, Eq)]
pub struct GameState {
    castling: (bool, bool, bool, bool),
    en_pessant: Option<usize>,
}

/// `-`, no en-passant square.
pub const DASH: u8 = 45;

/// `h`, the last file letter.
pub const LOWER_H: u8 = 104;

/// Where the `n`-th space-separated field of `b` starts (past the end of
/// `b` when there are fewer fields).
pub open spec fn field_start(b: Seq<u8>, n: nat) -> int
    decreases n,
{
    if n == 0 {
        0
    } else {
        field_end(b, field_start(b, (n - 1) as nat)) + 1
    }
}

pub open spec fn has_field(b: Seq<u8>, n: nat) -> bool {
    field_start(b, n) <= b.len()
}

/// The `n`-th space-separated field of `b`.
pub open spec fn field(b: Seq<u8>, n: nat) -> Seq<u8> {
    b.subrange(field_start(b, n), field_end(b, field_start(b, n)))
}

/// Whether byte `c` occurs in `f`.
pub open spec fn has_byte(f: Seq<u8>, c: u8) -> bool {
    exists|i: int| 0 <= i < f.len() && f[i] == c
}

/// The en-passant field: `-` for none, else a file letter a..h and a rank
/// digit 1..8 (anything after them is ignored); `None` when malformed.
pub open spec fn en_passant_of(f: Seq<u8>) -> Option<Option<usize>> {
    if f.len() == 1 && f[0] == DASH {
        Some(None)
    } else if f.len() >= 2 && LOWER_A <= f[0] <= LOWER_H && DIGIT_ONE <= f[1] <= DIGIT_EIGHT {
        Some(Some(((f[0] - LOWER_A) + 8 * (f[1] - DIGIT_ONE)) as usize))
    } else {
        None
    }
}

proof fn lemma_field_end_bounds(b: Seq<u8>, i: int)
    requires
        0 <= i <= b.len(),
    ensures
        i <= field_end(b, i) <= b.len(),
        field_end(b, i) < b.len() ==> b[field_end(b, i)] == SPACE,
        forall|j: int| i <= j < field_end(b, i) ==> b[j] != SPACE,
    decreases b.len() - i,
{
    if i < b.len() {
        lemma_field_end_bounds(b, i + 1);
    }
}

/// The first space of `b` at or after `i`, or the length of `b`.
pub fn next_space(b: &[u8], i: usize) -> (r: usize)
    requires
        i <= b@.len(),
    ensures
        r == field_end(b@, i as int),
{
    let mut j = i;
    proof {
        lemma_field_end_bounds(b@, i as int);
    }
    while j < b.len() && b[j] != SPACE
        invariant
            i <= j <= b@.len(),
            field_end(b@, i as int) == field_end(b@, j as int),
        decreases b@.len() - j,
    {
        j += 1;
    }
    j
}

/// Start and end of the `n`-th space-separated field of `b`, if it has one.
pub fn field_bounds(b: &[u8], n: usize) -> (r: Option<(usize, usize)>)
    ensures
        r is Some == has_field(b@, n as nat),
        r matches Some(se) ==> se.0 == field_start(b@, n as nat) && se.1 == field_end(
            b@,
            se.0 as int,
        ) && se.0 <= se.1 <= b@.len(),
{
    let mut start: usize = 0;
    let mut k: usize = 0;
    while k < n
        invariant
            k <= n,
            start == field_start(b@, k as nat),
            start <= b@.len(),
        decreases n - k,
    {
        let end = next_space(b, start);
        if end >= b.len() {
            proof {
                lemma_field_starts_grow(b@, (k + 1) as nat, n as nat);
            }
            return None;
        }
        start = end + 1;
        k += 1;
    }
    let end = next_space(b, start);
    proof {
        lemma_field_end_bounds(b@, start as int);
    }
    Some((start, end))
}

/// Past the end, later fields are past the end too.
proof fn lemma_field_starts_grow(b: Seq<u8>, m: nat, n: nat)
    requires
        m <= n,
        field_start(b, m) > b.len(),
    ensures
        field_start(b, n) > b.len(),
    decreases n - m,
{
    if m < n {
        lemma_field_starts_grow(b, m + 1, n);
    }
}

/// A record without field `m` has no later field `n` either.
pub proof fn lemma_later_fields_missing(b: Seq<u8>, m: nat, n: nat)
    requires
        m <= n,
        !has_field(b, m),
    ensures
        !has_field(b, n),
{
    lemma_field_starts_grow(b, m, n);
}

/// Whether byte `c` occurs in `b` between `start` and `end`.
fn contains_byte(b: &[u8], start: usize, end: usize, c: u8) -> (r: bool)
    requires
        start <= end <= b@.len(),
    ensures
        r == has_byte(b@.subrange(start as int, end as int), c),
{
    let mut i = start;
    while i < end
        invariant
            start <= i <= end <= b@.len(),
            forall|j: int| start <= j < i ==> b@[j] != c,
        decreases end - i,
    {
        if b[i] == c {
            proof {
                assert(b@.subrange(start as int, end as int)[i - start] == c);
            }
            return true;
        }
        i += 1;
    }
    proof {
        let f = b@.subrange(start as int, end as int);
        assert forall|j: int| 0 <= j < f.len() implies f[j] != c by {
            assert(f[j] == b@[start + j]);
        }
    }
    false
}

/// Error for malformed castling or en-passant fields.
#[derive(Debug, PartialEq, Eq)]
pub struct ParseFenError;

impl GameState {
    pub closed spec fn spec_castling(self) -> (bool, bool, bool, bool) {
        self.castling
    }

    pub closed spec fn spec_en_passant(self) -> Option<usize> {
        self.en_pessant
    }

    /// A state with the given castling rights and en-passant square.
    pub fn new(castling: (bool, bool, bool, bool), en_passant: Option<usize>) -> (r: GameState)
        ensures
            r.spec_castling() == castling,
            r.spec_en_passant() == en_passant,
    {
        GameState { castling, en_pessant: en_passant }
    }

    /// Reads the castling field (the third) and the en-passant field (the
    /// fourth) of a position record: each of `Q`, `K`, `q`, `k` present grants
    /// that right.
    pub fn parse(b: &[u8]) -> (r: Result<GameState, ParseFenError>)
        ensures
            match r {
                Ok(g) => has_field(b@, 3) && en_passant_of(field(b@, 3)) == Some(g.spec_en_passant())
                    && g.spec_castling() == (
                        has_byte(field(b@, 2), WHITE_QUEEN),
                        has_byte(field(b@, 2), WHITE_KING),
                        has_byte(field(b@, 2), BLACK_QUEEN),
                        has_byte(field(b@, 2), BLACK_KING),
                    ),
                Err(_) => !has_field(b@, 3) || en_passant_of(field(b@, 3)) is None,
            },
    {
        let castle = field_bounds(b, 2);
        let passant = field_bounds(b, 3);
        match (castle, passant) {
            (Some((cs, ce)), Some((ps, pe))) => {
                let castling = (
                    contains_byte(b, cs, ce, WHITE_QUEEN),
                    contains_byte(b, cs, ce, WHITE_KING),
                    contains_byte(b, cs, ce, BLACK_QUEEN),
                    contains_byte(b, cs, ce, BLACK_KING),
                );
                proof {
                    let f = b@.subrange(ps as int, pe as int);
                    assert(f.len() == pe - ps);
                    if f.len() >= 1 {
                        assert(f[0] == b@[ps as int]);
                    }
                    if f.len() >= 2 {
                        assert(f[1] == b@[ps + 1]);
                    }
                }
                let en_pessant = if pe - ps == 1 && b[ps] == DASH {
                    None
                } else if pe - ps >= 2 && LOWER_A <= b[ps] && b[ps] <= LOWER_H && DIGIT_ONE <= b[ps + 1] && b[ps + 1] <= DIGIT_EIGHT {
                    Some((b[ps] - LOWER_A) as usize + 8 * (b[ps + 1] - DIGIT_ONE) as usize)
                } else {
                    return Err(ParseFenError);
                };
                Ok(GameState { castling, en_pessant })
            },
            _ => {
                proof {
                    if has_field(b@, 3) {
                        assert(field_start(b@, 2) <= b@.len()) by {
                            lemma_field_end_bounds(b@, field_start(b@, 2));
                            if field_start(b@, 2) > b@.len() {
                                lemma_field_starts_grow(b@, 2, 3);
                            }
                        }
                    }
                }
                Err(ParseFenError)
            },
        }
    }

    /// Castling rights: white queen side, white king side, black queen side,
    /// black king side.
    pub fn castling(&self) -> (r: (bool, bool, bool, bool))
        ensures
            r == self.spec_castling(),
    {
        self.castling
    }

    /// The en-passant target square, if any.
    pub fn en_passant(&self) -> (r: Option<usize>)
        ensures
            r == self.spec_en_passant(),
    {
        self.en_pessant
    }
}

impl core::str::FromStr for GameState {
    type Err = ParseFenError;

    fn from_str(s: &str) -> Result<GameState, ParseFenError> {
        GameState::parse(s.as_bytes())
    }
}

} // verus!
