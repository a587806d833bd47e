//! Grid coordinates and the integer keys they are stored under.

use vstd::prelude::*;

verus! {

/// A cell of a two-dimensional grid.
#[derive(Clone, Copy, Debug, PartialEq, Eq, Hash, Structural)]
pub struct Coord {
    pub x: i32,
    pub y: i32,
}

/// The key of a coordinate: both components shifted to be non-negative, `x`
/// in the upper and `y` in the lower 32 bits.
pub open spec fn coord_key(c: Coord) -> u64 {
    ((c.x + 0x8000_0000) * 0x1_0000_0000 + (c.y + 0x8000_0000)) as u64
}

/// Different coordinates have different keys.
pub proof fn lemma_coord_key_injective(a: Coord, b: Coord)
    ensures
        coord_key(a) == coord_key(b) <==> a == b,
{
}

impl Coord {
    /// The coordinate `(x, y)`.
    pub fn new(x: i32, y: i32) -> (c: Coord)
        ensures
            c == (Coord { x, y }),
    {
        Coord { x, y }
    }

    /// The key this coordinate is stored under.
    pub fn key(&self) -> (k: u64)
        ensures
            k == coord_key(*self),
    {
        let kx: u64 = (self.x as i64 + 0x8000_0000) as u64;
        let ky: u64 = (self.y as i64 + 0x8000_0000) as u64;
        kx * 0x1_0000_0000 + ky
    }
}

} // verus!
