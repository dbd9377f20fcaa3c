use vstd::prelude::*;

pub mod bitboard;
pub mod board;
pub mod color;
pub mod gamestate;
pub mod lookup;
pub mod moves;
pub mod pieces;
pub mod pin;

pub use pieces::PieceType;

verus! {

} // verus!
