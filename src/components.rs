use vstd::prelude::*;

verus! {

/// The number of mines around a cell, as the cell shows it.
#[derive(Debug, Default, Clone, Copy, PartialEq, Eq, Structural)]
pub struct BombNeighbor {
    pub count: u8,
}

/// Marks the cover that hides a cell until it is discovered.
#[derive(Debug, Default, Clone, Copy, PartialEq, Eq, Structural)]
pub struct TileCover;

/// Whether a cell is still hidden under its cover.
#[derive(Debug, Clone, Copy, PartialEq, Eq, Structural)]
pub struct Covered {
    pub is_covered: bool,
}

/// Marks a cell whose cover is to be taken away.
#[derive(Debug, Clone, Copy, PartialEq, Eq, Structural)]
pub struct Uncover;

} // verus!
