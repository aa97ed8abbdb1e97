//! The player's body, as far as it is not floating point: what stops it, and where in the
//! spawn square a newcomer is set down.
use vstd::prelude::*;

verus! {

/// The column the world spawns everybody over, along x.
pub const SPAWN_X: i32 = 8;
/// The column the world spawns everybody over, along z.
pub const SPAWN_Z: i32 = 8;

/// How far either way from the spawn column a player may be set down, in blocks. Seven
/// keeps the whole square inside the one chunk the spawn column sits in.
pub const SPAWN_SCATTER: i32 = 7;

/// What the player's box shares space with.
#[derive(Debug, Clone, Copy, PartialEq, Eq, Structural)]
pub enum Overlap {
    /// Free space.
    Clear,
    /// A block, in a chunk that is loaded, so it is really there.
    Solid,
    /// Terrain nobody has generated yet. It stops movement exactly like a block does,
    /// because an unloaded chunk reads as air and walking into that is how you fall out of
    /// the world; but there is nothing there to be pushed out of.
    Unknown,
}

impl Overlap {
    /// Does this stop the player? Ungenerated terrain does, same as a block.
    pub fn blocks(self) -> (r: bool)
        ensures
            r == (self != Overlap::Clear),
    {
        match self {
            Overlap::Clear => false,
            _ => true,
        }
    }
}

/// Where a player is set down, from two bytes of their id: scattered over the square
/// around the spawn column, so two players joining together do not land in one place, and
/// the same player always lands in the same place.
pub fn spawn_column(x: u8, z: u8) -> (r: (i32, i32))
    ensures
        r.0 == SPAWN_X - SPAWN_SCATTER + (x as int) % (2 * SPAWN_SCATTER + 1),
        r.1 == SPAWN_Z - SPAWN_SCATTER + (z as int) % (2 * SPAWN_SCATTER + 1),
        SPAWN_X - SPAWN_SCATTER <= r.0 <= SPAWN_X + SPAWN_SCATTER,
        SPAWN_Z - SPAWN_SCATTER <= r.1 <= SPAWN_Z + SPAWN_SCATTER,
{
    let span: i32 = 2 * SPAWN_SCATTER + 1;
    (SPAWN_X - SPAWN_SCATTER + (x as i32) % span, SPAWN_Z - SPAWN_SCATTER + (z as i32) % span)
}

} // verus!
