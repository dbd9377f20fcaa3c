use vstd::prelude::*;
use crate::bitboard::BitBoard;

verus! {

/// Allowed destinations of a pinned piece, one board per axis through the
/// king: horizontal, vertical, rising diagonal and falling diagonal; an
/// axis without a pin is empty.
#[derive(Debug, Clone, Copy, PartialEq, Eq, Structural)]
pub struct PinMask {
    pub h: BitBoard,
    pub v: BitBoard,
    pub d1: BitBoard,
    pub d2: BitBoard,
}

/// An axis through the king along which a piece can be pinned.
#[derive(Debug, Clone, Copy, PartialEq, Eq, Structural)]
pub enum Axis {
    Horizontal,
    Vertical,
    Rising,
    Falling,
}

} // verus!
