use chess_core::lookup::{
    bishop_lookup, generate_bishop_lookup, generate_black_pawn_lookup, generate_king_lookup,
    generate_knight_lookup, generate_queen_lookup, generate_rook_lookup,
    generate_white_pawn_lookup, king_lookup, knight_lookup, queen_lookup, rook_lookup,
};

fn has(b: u64, s: usize) -> bool {
    (b >> s) & 1 == 1
}

#[test]
fn king_and_knight_tables_are_symmetric() {
    let king = generate_king_lookup();
    let knight = generate_knight_lookup();
    for a in 0..64 {
        for b in 0..64 {
            assert_eq!(has(king[a].0, b), has(king[b].0, a));
            assert_eq!(has(knight[a].0, b), has(knight[b].0, a));
        }
    }
}

#[test]
fn single_step_counts() {
    assert_eq!(king_lookup(0).count(), 3);
    assert_eq!(king_lookup(27).count(), 8);
    assert_eq!(knight_lookup(0).count(), 2);
    assert_eq!(knight_lookup(0).0, (1 << 10) | (1 << 17));
    assert_eq!(knight_lookup(27).count(), 8);
    assert_eq!(knight_lookup(7).0, (1 << 13) | (1 << 22));
}

#[test]
fn pawn_tables() {
    let white = generate_white_pawn_lookup();
    let black = generate_black_pawn_lookup();
    // e4 attacks d5 and f5 for white, d3 and f3 for black
    assert_eq!(white[28].0, (1 << 35) | (1 << 37));
    assert_eq!(black[28].0, (1 << 19) | (1 << 21));
    // a-file and h-file pawns attack one square only
    assert_eq!(white[8].0, 1 << 17);
    assert_eq!(white[15].0, 1 << 22);
    // last rank has nothing ahead
    assert_eq!(white[60].0, 0);
    assert_eq!(black[4].0, 0);
}

#[test]
fn sliding_rays_stop_at_edges() {
    let rook = generate_rook_lookup();
    let bishop = generate_bishop_lookup();
    let queen = generate_queen_lookup();
    for a in 0..64 {
        assert_eq!(rook[a].count(), 14);
        assert_eq!(queen[a].0, rook[a].0 | bishop[a].0);
    }
    // h1 rook: rank 1 and file h only, never a2
    assert_eq!(rook_lookup(7).0, 0x8080_8080_8080_807f);
    assert!(!has(rook_lookup(7).0, 8));
    // h1 bishop: the long falling diagonal only
    assert_eq!(bishop_lookup(7).0, (1 << 14) | (1 << 21) | (1 << 28) | (1 << 35) | (1 << 42) | (1 << 49) | (1 << 56));
    assert_eq!(bishop_lookup(27).count(), 13);
    assert_eq!(queen_lookup(27).count(), 27);
    assert_eq!(queen_lookup(0).count(), 21);
}
