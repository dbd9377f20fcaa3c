use vstd::prelude::*;
use vstd::std_specs::bits::axiom_u64_trailing_zeros;
use vstd::std_specs::bits::u64_trailing_zeros;

verus! {

/// Whether bit `i` of `x` is set; squares outside `0..64` are never set.
pub open spec fn bit(x: u64, i: int) -> bool {
    0 <= i < 64 && (x >> (i as u64)) & 1u64 == 1u64
}

/// Number of set bits of `x`.
pub open spec fn popcount(x: u64) -> nat
    decreases x,
{
    if x == 0 {
        0
    } else {
        (x % 2) as nat + popcount(x / 2)
    }
}

/// Index of the lowest set bit of `x` (64 for zero).
pub open spec fn lowest(x: u64) -> int {
    u64_trailing_zeros(x) as int
}

/// Bits of a conjunction.
pub proof fn lemma_and(a: u64, b: u64)
    ensures
        forall|i: int| #[trigger] bit(a & b, i) == (bit(a, i) && bit(b, i)),
{
    assert forall|i: int| #[trigger] bit(a & b, i) == (bit(a, i) && bit(b, i)) by {
        if 0 <= i < 64 {
            let j = i as u64;
            assert(((a & b) >> j) & 1u64 == 1u64 <==> ((a >> j) & 1u64 == 1u64 && (b >> j) & 1u64
                == 1u64)) by (bit_vector);
        }
    }
}

/// Bits of a disjunction.
pub proof fn lemma_or(a: u64, b: u64)
    ensures
        forall|i: int| #[trigger] bit(a | b, i) == (bit(a, i) || bit(b, i)),
{
    assert forall|i: int| #[trigger] bit(a | b, i) == (bit(a, i) || bit(b, i)) by {
        if 0 <= i < 64 {
            let j = i as u64;
            assert(((a | b) >> j) & 1u64 == 1u64 <==> ((a >> j) & 1u64 == 1u64 || (b >> j) & 1u64
                == 1u64)) by (bit_vector);
        }
    }
}

/// Bits of an exclusive or.
pub proof fn lemma_xor(a: u64, b: u64)
    ensures
        forall|i: int| #[trigger] bit(a ^ b, i) == (bit(a, i) != bit(b, i)),
{
    assert forall|i: int| #[trigger] bit(a ^ b, i) == (bit(a, i) != bit(b, i)) by {
        if 0 <= i < 64 {
            let j = i as u64;
            assert(((a ^ b) >> j) & 1u64 == 1u64 <==> ((a >> j) & 1u64 == 1u64) != ((b >> j) & 1u64
                == 1u64)) by (bit_vector);
        }
    }
}

/// Bits of a complement.
pub proof fn lemma_not(a: u64)
    ensures
        forall|i: int| 0 <= i < 64 ==> #[trigger] bit(!a, i) == !bit(a, i),
{
    assert forall|i: int| 0 <= i < 64 implies #[trigger] bit(!a, i) == !bit(a, i) by {
        let j = i as u64;
        assert(j < 64 ==> (((!a) >> j) & 1u64 == 1u64 <==> !((a >> j) & 1u64 == 1u64)))
            by (bit_vector);
    }
}

/// `1 << k` holds bit `k` alone.
pub proof fn lemma_single(k: u64)
    requires
        k < 64,
    ensures
        forall|i: int| #[trigger] bit(1u64 << k, i) == (i == k),
{
    assert forall|i: int| #[trigger] bit(1u64 << k, i) == (i == k) by {
        if 0 <= i < 64 {
            let j = i as u64;
            assert(k < 64 && j < 64 ==> ((((1u64 << k) >> j) & 1u64 == 1u64) <==> j == k))
                by (bit_vector);
        }
    }
}

/// Zero holds no bit.
pub proof fn lemma_zero()
    ensures
        forall|i: int| !#[trigger] bit(0u64, i),
{
    assert forall|i: int| !#[trigger] bit(0u64, i) by {
        if 0 <= i < 64 {
            let j = i as u64;
            assert((0u64 >> j) & 1u64 == 0u64) by (bit_vector);
        }
    }
}

/// All ones holds every bit.
pub proof fn lemma_full()
    ensures
        forall|i: int| 0 <= i < 64 ==> #[trigger] bit(!0u64, i),
{
    assert forall|i: int| 0 <= i < 64 implies #[trigger] bit(!0u64, i) by {
        let j = i as u64;
        assert(j < 64 ==> ((!0u64) >> j) & 1u64 == 1u64) by (bit_vector);
    }
}

/// The lowest set bit of a nonzero value is set, and no bit below it is.
pub proof fn lemma_lowest(x: u64)
    requires
        x != 0,
    ensures
        0 <= lowest(x) < 64,
        bit(x, lowest(x)),
        forall|i: int| 0 <= i < lowest(x) ==> !#[trigger] bit(x, i),
{
    axiom_u64_trailing_zeros(x);
    assert forall|i: int| 0 <= i < lowest(x) implies !#[trigger] bit(x, i) by {
        let j = i as u64;
        assert((x >> j) & 1u64 == 0u64);
    }
}

/// Two values with the same bits are equal.
pub proof fn lemma_ext(a: u64, b: u64)
    requires
        forall|i: int| 0 <= i < 64 ==> #[trigger] bit(a, i) == bit(b, i),
    ensures
        a == b,
{
    lemma_xor(a, b);
    if a ^ b != 0 {
        lemma_lowest(a ^ b);
        assert(bit(a ^ b, lowest(a ^ b)));
    }
    assert(a ^ b == 0 ==> a == b) by (bit_vector);
}

/// A value with no set bit is zero.
pub proof fn lemma_empty(a: u64)
    requires
        forall|i: int| 0 <= i < 64 ==> !#[trigger] bit(a, i),
    ensures
        a == 0,
{
    lemma_zero();
    lemma_ext(a, 0);
}

/// A set of board squares, one bit per square (bit `i` is square `i`).
#[derive(Clone, Copy, PartialEq, Eq, Debug, Hash, PartialOrd, Structural)]
pub struct BitBoard(pub u64);

impl BitBoard {
    /// Whether square `sq` is in the set.
    pub open spec fn has(self, sq: int) -> bool {
        bit(self.0, sq)
    }

    /// The board holding square `index` alone.
    pub fn new(index: usize) -> (r: BitBoard)
        requires
            index < 64,
        ensures
            r.0 == 1u64 << (index as u64),
            forall|i: int| #[trigger] r.has(i) == (i == index),
    {
        proof {
            lemma_single(index as u64);
        }
        BitBoard(1u64 << (index as u64))
    }

    /// Index of the lowest square of a non-empty set.
    pub fn first(&self) -> (r: usize)
        requires
            self.0 != 0,
        ensures
            r == lowest(self.0),
            r < 64,
            self.has(r as int),
            forall|i: int| 0 <= i < r ==> !#[trigger] self.has(i),
    {
        proof {
            lemma_lowest(self.0);
        }
        self.0.trailing_zeros() as usize
    }

    /// Number of squares in the set.
    pub fn count(&self) -> (r: usize)
        ensures
            r == popcount(self.0),
    {
        count_ones(self.0) as usize
    }

    /// The raw 64-bit value.
    pub fn u64(&self) -> (r: u64)
        ensures
            r == self.0,
    {
        self.0
    }

    /// Rank (row, 0..8) of the lowest square of a non-empty set.
    pub fn rank(self) -> (r: i8)
        requires
            self.0 != 0,
        ensures
            r == lowest(self.0) / 8,
            0 <= r < 8,
    {
        proof {
            lemma_lowest(self.0);
        }
        (self.0.trailing_zeros() / 8) as i8
    }

    /// File (column, 0..8) of the lowest square of a non-empty set.
    pub fn file(self) -> (r: i8)
        requires
            self.0 != 0,
        ensures
            r == lowest(self.0) % 8,
            0 <= r < 8,
    {
        proof {
            lemma_lowest(self.0);
        }
        (self.0.trailing_zeros() % 8) as i8
    }

    /// The single square `r` ranks and `f` files away from the lowest square
    /// of a non-empty set; the caller keeps the destination on the board.
    pub fn offset(self, r: i8, f: i8) -> (b: BitBoard)
        requires
            self.0 != 0,
            0 <= lowest(self.0) / 8 + r < 8,
            0 <= lowest(self.0) % 8 + f < 8,
        ensures
            forall|i: int| #[trigger] b.has(i) == (i == (lowest(self.0) / 8 + r) * 8 + lowest(
                self.0,
            ) % 8 + f),
    {
        let newrank = self.rank() + r;
        let newfile = self.file() + f;
        let newsq = (newrank as u64) * 8 + newfile as u64;
        proof {
            lemma_single(newsq);
        }
        BitBoard(1u64 << newsq)
    }

    /// Whether square `sq` is in the set.
    pub fn contains(&self, sq: usize) -> (r: bool)
        requires
            sq < 64,
        ensures
            r == self.has(sq as int),
    {
        (self.0 >> (sq as u64)) & 1u64 == 1u64
    }
}

impl core::ops::BitAnd for BitBoard {
    type Output = Self;

    fn bitand(self, rhs: Self) -> (r: Self) {
        BitBoard(self.0 & rhs.0)
    }
}

impl vstd::std_specs::ops::BitAndSpecImpl for BitBoard {
    open spec fn obeys_bitand_spec() -> bool {
        true
    }

    open spec fn bitand_req(self, rhs: Self) -> bool {
        true
    }

    open spec fn bitand_spec(self, rhs: Self) -> Self {
        BitBoard(self.0 & rhs.0)
    }
}

impl core::ops::BitOr for BitBoard {
    type Output = Self;

    fn bitor(self, rhs: Self) -> (r: Self) {
        BitBoard(self.0 | rhs.0)
    }
}

impl vstd::std_specs::ops::BitOrSpecImpl for BitBoard {
    open spec fn obeys_bitor_spec() -> bool {
        true
    }

    open spec fn bitor_req(self, rhs: Self) -> bool {
        true
    }

    open spec fn bitor_spec(self, rhs: Self) -> Self {
        BitBoard(self.0 | rhs.0)
    }
}

impl core::ops::BitXor for BitBoard {
    type Output = Self;

    fn bitxor(self, rhs: Self) -> (r: Self) {
        BitBoard(self.0 ^ rhs.0)
    }
}

impl vstd::std_specs::ops::BitXorSpecImpl for BitBoard {
    open spec fn obeys_bitxor_spec() -> bool {
        true
    }

    open spec fn bitxor_req(self, rhs: Self) -> bool {
        true
    }

    open spec fn bitxor_spec(self, rhs: Self) -> Self {
        BitBoard(self.0 ^ rhs.0)
    }
}

impl core::ops::Sub for BitBoard {
    type Output = Self;

    fn sub(self, rhs: Self) -> (r: Self) {
        BitBoard(self.0 & !rhs.0)
    }
}

impl vstd::std_specs::ops::SubSpecImpl for BitBoard {
    open spec fn obeys_sub_spec() -> bool {
        true
    }

    open spec fn sub_req(self, rhs: Self) -> bool {
        true
    }

    open spec fn sub_spec(self, rhs: Self) -> Self {
        BitBoard(self.0 & !rhs.0)
    }
}

impl core::ops::BitAndAssign for BitBoard {
    fn bitand_assign(&mut self, rhs: Self) {
        *self = BitBoard(self.0 & rhs.0);
    }
}

impl core::ops::BitOrAssign for BitBoard {
    fn bitor_assign(&mut self, rhs: Self) {
        *self = BitBoard(self.0 | rhs.0);
    }
}

impl core::ops::BitXorAssign for BitBoard {
    fn bitxor_assign(&mut self, rhs: Self) {
        *self = BitBoard(self.0 ^ rhs.0);
    }
}

impl core::ops::Not for BitBoard {
    type Output = Self;

    fn not(self) -> (r: Self) {
        BitBoard(!self.0)
    }
}

impl vstd::std_specs::ops::NotSpecImpl for BitBoard {
    open spec fn obeys_not_spec() -> bool {
        true
    }

    open spec fn not_req(self) -> bool {
        true
    }

    open spec fn not_spec(self) -> Self {
        BitBoard(!self.0)
    }
}

/// Relies on u64::count_ones: the number of set bits.
#[verifier::external_body]
fn count_ones(x: u64) -> (r: u32)
    ensures
        r == popcount(x),
{
    x.count_ones()
}

} // verus!
