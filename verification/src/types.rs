//! Sizes, block ids and coordinates shared by the whole world.

use vstd::prelude::*;

verus! {

/// The edge length of a chunk in blocks.
pub const CHUNK_SIZE: usize = 32;

/// The number of blocks in a chunk.
pub const CHUNK_VOLUME: usize = 32768;

/// The kind of a block.
pub type BlockId = u8;

/// Nothing.
pub const AIR: BlockId = 0;

/// Grass.
pub const GRASS: BlockId = 1;

/// Stone.
pub const STONE: BlockId = 2;

/// Dirt.
pub const DIRT: BlockId = 3;

/// Sand.
pub const SAND: BlockId = 4;

/// Water.
pub const WATER: BlockId = 5;

/// Where a chunk lies, counted in chunks.
#[derive(Debug, Clone, Copy, PartialEq, Eq, Hash, Structural)]
pub struct ChunkCoord {
    pub cx: i32,
    pub cy: i32,
    pub cz: i32,
}

/// Where a block lies in the world.
#[derive(Debug, Clone, Copy, PartialEq, Eq, Hash, Structural)]
pub struct BlockPos {
    pub x: i32,
    pub y: i32,
    pub z: i32,
}

/// The chunk that holds the block at `pos`.
pub open spec fn chunk_of(pos: BlockPos) -> ChunkCoord {
    ChunkCoord {
        cx: (pos.x as int / 32) as i32,
        cy: (pos.y as int / 32) as i32,
        cz: (pos.z as int / 32) as i32,
    }
}

/// Where the block at `pos` lies inside its chunk.
pub open spec fn local_of(pos: BlockPos) -> (int, int, int) {
    (pos.x as int % 32, pos.y as int % 32, pos.z as int % 32)
}

/// Divides by the chunk size, rounding down.
pub fn div_chunk(v: i32) -> (r: i32)
    ensures
        r == v as int / 32,
        -67108864 <= r <= 67108863,
{
    if v >= 0 {
        v / 32
    } else {
        let up: i64 = -(v as i64);
        (-((up + 31) / 32)) as i32
    }
}

/// The remainder of a division by the chunk size, never negative.
pub fn rem_chunk(v: i32) -> (r: usize)
    ensures
        r == v as int % 32,
        r < 32,
{
    let q: i64 = div_chunk(v) as i64;
    (v as i64 - q * 32) as usize
}

/// The chunk that holds a block, and where the block lies in it.
pub fn split_block_pos(pos: BlockPos) -> (r: (ChunkCoord, (usize, usize, usize)))
    ensures
        r.0 == chunk_of(pos),
        r.1.0 == local_of(pos).0,
        r.1.1 == local_of(pos).1,
        r.1.2 == local_of(pos).2,
        r.1.0 < 32,
        r.1.1 < 32,
        r.1.2 < 32,
{
    (
        ChunkCoord { cx: div_chunk(pos.x), cy: div_chunk(pos.y), cz: div_chunk(pos.z) },
        (rem_chunk(pos.x), rem_chunk(pos.y), rem_chunk(pos.z)),
    )
}

/// A block is found again from its chunk and its place in the chunk.
pub proof fn law_chunk_and_local(pos: BlockPos)
    ensures
        chunk_of(pos).cx * 32 + local_of(pos).0 == pos.x,
        chunk_of(pos).cy * 32 + local_of(pos).1 == pos.y,
        chunk_of(pos).cz * 32 + local_of(pos).2 == pos.z,
{
}

} // verus!
