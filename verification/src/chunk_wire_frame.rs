//! Which chunks show their edges.

use crate::types::ChunkCoord;
use vstd::prelude::*;

verus! {

/// Whether two coordinates are at most one apart.
fn adjacent(a: i32, b: i32) -> (r: bool)
    ensures
        r == (-1 <= a - b <= 1),
{
    let d: i64 = a as i64 - b as i64;
    -1 <= d && d <= 1
}

/// Whether a chunk is the player's or next to it, along edges and corners too.
pub fn in_3x3x3_range(target: ChunkCoord, player: ChunkCoord) -> (r: bool)
    ensures
        r == (-1 <= target.cx - player.cx <= 1 && -1 <= target.cy - player.cy <= 1 && -1 <= target.cz
            - player.cz <= 1),
{
    adjacent(target.cx, player.cx) && adjacent(target.cy, player.cy) && adjacent(
        target.cz,
        player.cz,
    )
}

} // verus!
