//! Where things are: block and chunk coordinates, and which chunk a block is in.
//!
//! Chunks are full-height columns of [`CHUNK_SIZE`] by [`CHUNK_SIZE`] blocks, so a chunk
//! is named by two coordinates and a block by three.
use vstd::prelude::*;

verus! {

/// The side of a chunk, in blocks.
pub const CHUNK_SIZE: i32 = 16;

/// One block of the world.
#[derive(Clone, Copy, PartialEq, Eq, Hash, Debug, Structural)]
pub struct BlockPos {
    pub x: i32,
    pub y: i32,
    pub z: i32,
}

/// One full-height column of chunk.
#[derive(Clone, Copy, PartialEq, Eq, Hash, Debug, Structural)]
pub struct ChunkPos {
    pub x: i32,
    pub z: i32,
}

/// The chunk coordinate a block coordinate falls in: rounding down, so the blocks at
/// `-1` are in chunk `-1` and not in chunk `0`.
pub open spec fn chunk_of(v: int) -> int {
    v / (CHUNK_SIZE as int)
}

/// Where a block coordinate sits inside its chunk, from `0` to `CHUNK_SIZE - 1`.
pub open spec fn local_of(v: int) -> int {
    v % (CHUNK_SIZE as int)
}

/// Which chunk a coordinate is in, rounding down.
pub fn chunk_coord(v: i32) -> (r: i32)
    ensures
        r == chunk_of(v as int),
        r * CHUNK_SIZE + local_of(v as int) == v,
        0 <= local_of(v as int) < CHUNK_SIZE,
{
    proof {
        vstd::arithmetic::div_mod::lemma_fundamental_div_mod(v as int, CHUNK_SIZE as int);
    }
    let q = v / CHUNK_SIZE;
    let m = v % CHUNK_SIZE;
    if m < 0 {
        proof {
            vstd::arithmetic::div_mod::lemma_fundamental_div_mod_converse(
                v as int,
                CHUNK_SIZE as int,
                q - 1,
                m + CHUNK_SIZE,
            );
        }
        q - 1
    } else {
        proof {
            vstd::arithmetic::div_mod::lemma_fundamental_div_mod_converse(
                v as int,
                CHUNK_SIZE as int,
                q as int,
                m as int,
            );
        }
        q
    }
}

/// Where a coordinate sits inside its chunk.
pub fn local_coord(v: i32) -> (r: i32)
    ensures
        r == local_of(v as int),
        0 <= r < CHUNK_SIZE,
{
    let c = chunk_coord(v);
    v - c * CHUNK_SIZE
}

impl BlockPos {
    pub fn new(x: i32, y: i32, z: i32) -> (r: BlockPos)
        ensures
            r == (BlockPos { x, y, z }),
    {
        BlockPos { x, y, z }
    }

    /// The chunk this block is in.
    pub fn chunk(self) -> (r: ChunkPos)
        ensures
            r.x == chunk_of(self.x as int),
            r.z == chunk_of(self.z as int),
    {
        ChunkPos { x: chunk_coord(self.x), z: chunk_coord(self.z) }
    }
}

impl ChunkPos {
    pub fn new(x: i32, z: i32) -> (r: ChunkPos)
        ensures
            r == (ChunkPos { x, z }),
    {
        ChunkPos { x, z }
    }
}

} // verus!
