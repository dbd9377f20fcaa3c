use chess_core::bitboard::BitBoard;
use chess_core::board::Board;
use chess_core::color::Color;
use chess_core::gamestate::GameState;
use chess_core::pieces::{parse_placement, Pieces};

const START: &str = "rnbqkbnr/pppppppp/8/8/8/8/PPPPPPPP/RNBQKBNR w KQkq - 0 1";

#[test]
fn start_position_reads_as_default() {
    let board: Board = START.parse().ok().unwrap();
    assert_eq!(board, Board::default());
}

#[test]
fn placement_of_lone_pieces() {
    let p: Pieces = "4k3/8/8/8/8/8/4R3/4K3".parse().ok().unwrap();
    assert_eq!(p.king, BitBoard((1 << 4) | (1 << 60)));
    assert_eq!(p.rook, BitBoard(1 << 12));
    assert_eq!(p.white, BitBoard((1 << 4) | (1 << 12)));
    assert_eq!(p.black, BitBoard(1 << 60));
    assert_eq!(p.pawn.0 | p.queen.0 | p.bishop.0 | p.knight.0, 0);
}

#[test]
fn placement_stops_at_space() {
    let p = parse_placement(b"8/8/8/8/8/8/8/7k w - - 0 1").ok().unwrap();
    assert_eq!(p.black, BitBoard(1 << 7));
}

#[test]
fn placement_errors() {
    // a ninth rank
    assert!(parse_placement(b"8/8/8/8/8/8/8/8/8").is_err());
    // nine files
    assert!(parse_placement(b"8p/8/8/8/8/8/8/8").is_err());
    assert!(parse_placement(b"9/8/8/8/8/8/8/8").is_err());
    // an unknown letter
    assert!(parse_placement(b"x7/8/8/8/8/8/8/8").is_err());
}

#[test]
fn game_state_fields() {
    let g: GameState = "8/8/8/8/8/8/8/8 b Kq e3 0 1".parse().ok().unwrap();
    assert_eq!(g.castling(), (false, true, true, false));
    assert_eq!(g.en_passant(), Some(20));
    let g: GameState = START.parse().ok().unwrap();
    assert_eq!(g.castling(), (true, true, true, true));
    assert_eq!(g.en_passant(), None);
    assert!("8/8/8/8/8/8/8/8 w - z9 0 1".parse::<GameState>().is_err());
    assert!("8/8/8/8/8/8/8/8 w -".parse::<GameState>().is_err());
}

#[test]
fn board_fields() {
    let b: Board = "4k3/8/8/8/4p3/8/4R3/4K3 B - - 7 3".parse().ok().unwrap();
    assert_eq!(b.side_to_move, Color::Black);
    assert_eq!(b.halfmoves, 7);
    assert_eq!(b.fullmoves, 3);
    assert_eq!(b.pieces.pawn, BitBoard(1 << 28));
    assert!("4k3/8/8/8/8/8/8/4K3 x - - 0 1".parse::<Board>().is_err());
    assert!("4k3/8/8/8/8/8/8/4K3 w - - 0".parse::<Board>().is_err());
    assert!("4k3/8/8/8/8/8/8/4K3 w - - a 1".parse::<Board>().is_err());
}
