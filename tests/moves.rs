use std::time::SystemTime;

use chess_core::bitboard::BitBoard;
use chess_core::moves::between_rays;

#[test]
fn time_table() {
    let _between = between_rays(BitBoard(1), BitBoard(1 << 63));
    let _between = between_rays(BitBoard(1), BitBoard(1 << 63));
    let _between = between_rays(BitBoard(1), BitBoard(1 << 63));
    let start = SystemTime::now();
    let _between = between_rays(BitBoard(1), BitBoard(1 << 63));
    let since = start.elapsed().expect(".").as_nanos();
    println!("{}ns", since);
}

fn squares(list: &[usize]) -> u64 {
    list.iter().fold(0u64, |acc, &s| acc | (1u64 << s))
}

#[test]
fn between_long_diagonal() {
    let r = between_rays(BitBoard(1), BitBoard(1 << 63));
    assert_eq!(r.0, squares(&[9, 18, 27, 36, 45, 54]));
}

#[test]
fn between_same_square_is_empty() {
    for a in 0..64 {
        assert_eq!(between_rays(BitBoard::new(a), BitBoard::new(a)).0, 0);
    }
}

#[test]
fn between_is_symmetric() {
    for a in 0..64 {
        for b in 0..64 {
            assert_eq!(
                between_rays(BitBoard::new(a), BitBoard::new(b)),
                between_rays(BitBoard::new(b), BitBoard::new(a))
            );
        }
    }
}

#[test]
fn between_unaligned_or_adjacent_is_empty() {
    // a1 and c2 share no line
    assert_eq!(between_rays(BitBoard::new(0), BitBoard::new(10)).0, 0);
    // a1 and b2 are neighbours
    assert_eq!(between_rays(BitBoard::new(0), BitBoard::new(9)).0, 0);
    // h1 and a2 are not on a rank, whatever the index distance
    assert_eq!(between_rays(BitBoard::new(7), BitBoard::new(8)).0, 0);
}

#[test]
fn between_rank_and_file() {
    // a1 .. h1
    assert_eq!(between_rays(BitBoard::new(0), BitBoard::new(7)).0, squares(&[1, 2, 3, 4, 5, 6]));
    // e1 .. e8
    assert_eq!(
        between_rays(BitBoard::new(60), BitBoard::new(4)).0,
        squares(&[12, 20, 28, 36, 44, 52])
    );
    // h1 .. a8 falling diagonal
    assert_eq!(
        between_rays(BitBoard::new(7), BitBoard::new(56)).0,
        squares(&[14, 21, 28, 35, 42, 49])
    );
}

#[test]
fn between_uses_lowest_square() {
    let r = between_rays(BitBoard(1 | (1 << 40)), BitBoard(1 << 3));
    assert_eq!(r.0, squares(&[1, 2]));
}
