use chess_core::bitboard::BitBoard;
use chess_core::board::Board;
use chess_core::color::Color;
use chess_core::gamestate::GameState;
use chess_core::pieces::Pieces;
use chess_core::PieceType;

fn squares(list: &[usize]) -> u64 {
    list.iter().fold(0u64, |acc, &s| acc | (1u64 << s))
}

fn empty_pieces() -> Pieces {
    Pieces {
        king: BitBoard(0),
        queen: BitBoard(0),
        rook: BitBoard(0),
        bishop: BitBoard(0),
        knight: BitBoard(0),
        pawn: BitBoard(0),
        white: BitBoard(0),
        black: BitBoard(0),
    }
}

fn board_of(pieces: Pieces) -> Board {
    Board {
        pieces,
        side_to_move: Color::Black,
        halfmoves: 0,
        fullmoves: 1,
        state: GameState::new((false, false, false, false), None),
    }
}

// e1 = 4, e2 = 12, e5 = 36, e8 = 60
fn rook_on_e2() -> Pieces {
    let mut p = empty_pieces();
    p.king = BitBoard(squares(&[4, 60]));
    p.rook = BitBoard(squares(&[12]));
    p.white = BitBoard(squares(&[4, 12]));
    p.black = BitBoard(squares(&[60]));
    p
}

#[test]
fn starting_position_has_no_checks_or_pins() {
    let board = Board::default();
    for color in [Color::White, Color::Black] {
        let (checkers, pinners) = board.checkers_pinners(color);
        assert_eq!(checkers, BitBoard(0));
        assert_eq!(pinners, BitBoard(0));
    }
    assert_eq!(board.pieces(PieceType::King).0, squares(&[4, 60]));
    assert_eq!(board.occupied().0, 0xffff_0000_0000_ffff);
}

#[test]
fn no_check_leaves_every_square_but_the_king() {
    let board = Board::default();
    let (checkmask, pinmask) = board.checkmask_pinmask(Color::White, BitBoard(0), BitBoard(0));
    assert_eq!(checkmask.0, !(1u64 << 4));
    assert_eq!(pinmask.h.0 | pinmask.v.0 | pinmask.d1.0 | pinmask.d2.0, 0);
}

#[test]
fn rook_check_on_file() {
    let board = board_of(rook_on_e2());
    let (checkers, pinners) = board.checkers_pinners(Color::Black);
    assert_eq!(checkers.0, squares(&[12]));
    assert_eq!(pinners.0, 0);
    let (checkmask, _) = board.checkmask_pinmask(Color::Black, checkers, pinners);
    assert_eq!(checkmask.0, squares(&[12, 20, 28, 36, 44, 52]));
}

#[test]
fn pawn_blocks_rook_into_pin() {
    let mut pieces = rook_on_e2();
    pieces.pawn = BitBoard(squares(&[36]));
    pieces.black = BitBoard(squares(&[36, 60]));
    let board = board_of(pieces);
    let (checkers, pinners) = board.checkers_pinners(Color::Black);
    assert_eq!(checkers.0, 0);
    assert_eq!(pinners.0, squares(&[12]));
    let (checkmask, pinmask) = board.checkmask_pinmask(Color::Black, checkers, pinners);
    assert_eq!(pinmask.v.0, squares(&[12, 20, 28, 44, 52]));
    assert_eq!(pinmask.h.0, 0);
    assert_eq!(pinmask.d1.0, 0);
    assert_eq!(pinmask.d2.0, 0);
    assert_eq!(checkmask.0, !(1u64 << 60));
}

#[test]
fn two_blockers_neither_check_nor_pin() {
    let mut pieces = rook_on_e2();
    pieces.pawn = BitBoard(squares(&[36, 44]));
    pieces.black = BitBoard(squares(&[36, 44, 60]));
    let board = board_of(pieces);
    let (checkers, pinners) = board.checkers_pinners(Color::Black);
    assert_eq!(checkers.0, 0);
    assert_eq!(pinners.0, 0);
}

#[test]
fn knight_and_discovered_rook_double_check() {
    // white: king a1 (0), rook e1 (4), knight d6 (43); black: king e8 (60)
    let mut p = empty_pieces();
    p.king = BitBoard(squares(&[0, 60]));
    p.rook = BitBoard(squares(&[4]));
    p.knight = BitBoard(squares(&[43]));
    p.white = BitBoard(squares(&[0, 4, 43]));
    p.black = BitBoard(squares(&[60]));
    let board = board_of(p);
    let (checkers, pinners) = board.checkers_pinners(Color::Black);
    assert_eq!(checkers.count(), 2);
    assert_eq!(checkers.0, squares(&[4, 43]));
    assert_eq!(pinners.0, 0);
    let (checkmask, _) = board.checkmask_pinmask(Color::Black, checkers, pinners);
    assert_eq!(checkmask.0, squares(&[4, 12, 20, 28, 36, 44, 52, 43]));
}

#[test]
fn pawn_check_is_contact_check() {
    // white king e1 (4), black pawn d2 (11) attacks e1; black king h8 (63)
    let mut p = empty_pieces();
    p.king = BitBoard(squares(&[4, 63]));
    p.pawn = BitBoard(squares(&[11]));
    p.white = BitBoard(squares(&[4]));
    p.black = BitBoard(squares(&[11, 63]));
    let board = board_of(p);
    let (checkers, pinners) = board.checkers_pinners(Color::White);
    assert_eq!(checkers.0, squares(&[11]));
    assert_eq!(pinners.0, 0);
    let (checkmask, _) = board.checkmask_pinmask(Color::White, checkers, pinners);
    assert_eq!(checkmask.0, squares(&[11]));
    // a pawn behind the king gives no check
    let mut q = p;
    q.pawn = BitBoard(squares(&[3]));
    q.black = BitBoard(squares(&[3, 63]));
    assert_eq!(board_of(q).checkers_pinners(Color::White).0 .0, 0);
}

#[test]
fn pins_on_diagonals_and_rank() {
    // white king d4 (27); black bishop g7 (54) pins white knight e5 (36);
    // black bishop a7 (48) pins white pawn c5 (34); black rook h4 (31) pins
    // white rook f4 (29); black king h8 (63)
    let mut p = empty_pieces();
    p.king = BitBoard(squares(&[27, 63]));
    p.bishop = BitBoard(squares(&[54, 48]));
    p.knight = BitBoard(squares(&[36]));
    p.pawn = BitBoard(squares(&[34]));
    p.rook = BitBoard(squares(&[31, 29]));
    p.white = BitBoard(squares(&[27, 36, 34, 29]));
    p.black = BitBoard(squares(&[54, 48, 31, 63]));
    let board = board_of(p);
    let (checkers, pinners) = board.checkers_pinners(Color::White);
    assert_eq!(checkers.0, 0);
    assert_eq!(pinners.0, squares(&[54, 48, 31]));
    let (_, pinmask) = board.checkmask_pinmask(Color::White, checkers, pinners);
    assert_eq!(pinmask.h.0, squares(&[28, 30, 31]));
    assert_eq!(pinmask.v.0, 0);
    assert_eq!(pinmask.d1.0, squares(&[45, 54]));
    assert_eq!(pinmask.d2.0, squares(&[41, 48]));
}

#[test]
fn only_knights_give_knight_checks() {
    // a black bishop a knight's jump from the white king is no checker
    let mut p = empty_pieces();
    p.king = BitBoard(squares(&[4, 63]));
    p.bishop = BitBoard(squares(&[19]));
    p.white = BitBoard(squares(&[4]));
    p.black = BitBoard(squares(&[19, 63]));
    let (checkers, _) = board_of(p).checkers_pinners(Color::White);
    assert_eq!(checkers.0, 0);
}

#[test]
fn colors_and_pawn_attacks() {
    let board = Board::default();
    assert_eq!(board.colors(Color::White).0, 0xffff);
    assert_eq!(board.colors(Color::Black).0, 0xffff_0000_0000_0000);
    assert_eq!(board.pawn_attacks(12, Color::White).0, squares(&[19, 21]));
    assert_eq!(board.pawn_attacks(52, Color::Black).0, squares(&[43, 45]));
    assert_eq!(!Color::White, Color::Black);
}
