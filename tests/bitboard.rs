use chess_core::bitboard::BitBoard;

#[test]
fn new_first_rank_file() {
    let b = BitBoard::new(27); // d4
    assert_eq!(b.u64(), 1 << 27);
    assert_eq!(b.first(), 27);
    assert_eq!(b.rank(), 3);
    assert_eq!(b.file(), 3);
}

#[test]
fn first_is_lowest_square() {
    let b = BitBoard((1 << 40) | (1 << 12));
    assert_eq!(b.first(), 12);
    assert_eq!(b.rank(), 1);
    assert_eq!(b.file(), 4);
}

#[test]
fn count_squares() {
    assert_eq!(BitBoard(0).count(), 0);
    assert_eq!(BitBoard(!0).count(), 64);
    assert_eq!(BitBoard(0b1011).count(), 3);
}

#[test]
fn offset_moves_square() {
    let e2 = BitBoard::new(12);
    assert_eq!(e2.offset(1, 1), BitBoard::new(21));
    assert_eq!(e2.offset(-1, -4), BitBoard::new(0));
    assert_eq!(BitBoard::new(63).offset(-7, -7), BitBoard::new(0));
}

#[test]
fn set_operators() {
    let a = BitBoard(0b1100);
    let b = BitBoard(0b1010);
    assert_eq!(a & b, BitBoard(0b1000));
    assert_eq!(a | b, BitBoard(0b1110));
    assert_eq!(a ^ b, BitBoard(0b0110));
    assert_eq!(a - b, BitBoard(0b0100));
    assert_eq!(b - a, BitBoard(0b0010));
    assert_eq!(!BitBoard(0), BitBoard(!0));
    let mut c = a;
    c &= b;
    assert_eq!(c, BitBoard(0b1000));
    c |= BitBoard(1);
    assert_eq!(c, BitBoard(0b1001));
    c ^= BitBoard(0b1111);
    assert_eq!(c, BitBoard(0b0110));
    assert!(a.contains(3) && !a.contains(0));
}
