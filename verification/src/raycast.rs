//! Which block a ray meets first.
//!
//! The ray is given by the block in which it starts and the axes along which it
//! passes from block to block.

use crate::chunk::ChunkData;
use crate::palette;
use crate::types::{BlockId, BlockPos, CHUNK_SIZE};
use std::sync::Arc;
use vstd::prelude::*;

verus! {

/// How many blocks a ray is followed through at most.
pub const MAX_RAY_STEPS: usize = 192;

/// An axis of the world.
#[derive(Debug, Clone, Copy, PartialEq, Eq, Structural)]
pub enum Axis {
    X,
    Y,
    Z,
}

/// A chunk that a ray may meet, with the place of its first block.
pub struct RayChunk {
    pub data: Arc<ChunkData>,
    pub origin: BlockPos,
}

/// A path from block to block.
pub struct RayPath {
    pub start: BlockPos,
    /// Whether coordinates grow along each axis.
    pub forward_x: bool,
    pub forward_y: bool,
    pub forward_z: bool,
    /// The axis of each step.
    pub axes: Vec<Axis>,
}

/// What a ray has met.
#[derive(Debug, Clone, Copy, PartialEq, Eq)]
pub struct VoxelHit {
    pub block_pos: BlockPos,
    /// The direction of the face through which the ray came; zero in the block
    /// in which it started.
    pub normal: (i32, i32, i32),
    /// How many steps the ray took.
    pub steps: usize,
}

/// The step along an axis.
pub open spec fn sign(forward: bool) -> int {
    if forward {
        1
    } else {
        -1
    }
}

impl RayPath {
    /// The block after `k` steps.
    pub open spec fn block_after(&self, k: int) -> (int, int, int)
        decreases k,
    {
        if k <= 0 {
            (self.start.x as int, self.start.y as int, self.start.z as int)
        } else {
            let (x, y, z) = self.block_after(k - 1);
            match self.axes@[k - 1] {
                Axis::X => (x + sign(self.forward_x), y, z),
                Axis::Y => (x, y + sign(self.forward_y), z),
                Axis::Z => (x, y, z + sign(self.forward_z)),
            }
        }
    }

    /// The direction of the face through which step `k` went.
    pub open spec fn normal_after(&self, k: int) -> (int, int, int) {
        if k <= 0 {
            (0, 0, 0)
        } else {
            match self.axes@[k - 1] {
                Axis::X => (-sign(self.forward_x), 0, 0),
                Axis::Y => (0, -sign(self.forward_y), 0),
                Axis::Z => (0, 0, -sign(self.forward_z)),
            }
        }
    }

    /// How many steps are followed.
    pub open spec fn followed(&self) -> int {
        if self.axes@.len() < MAX_RAY_STEPS {
            self.axes@.len() as int
        } else {
            MAX_RAY_STEPS - 1
        }
    }

    /// The blocks of the path have 32-bit coordinates.
    pub open spec fn fits(&self) -> bool {
        &&& i32::MIN + 192 <= self.start.x <= i32::MAX - 192
        &&& i32::MIN + 192 <= self.start.y <= i32::MAX - 192
        &&& i32::MIN + 192 <= self.start.z <= i32::MAX - 192
    }
}

/// The block lies in the chunk.
pub open spec fn holds(c: RayChunk, p: (int, int, int)) -> bool {
    palette::in_chunk(p.0 - c.origin.x, p.1 - c.origin.y, p.2 - c.origin.z)
}

/// The block at a place, from the first of the chunks that it lies in.
pub open spec fn block_in(chunks: Seq<RayChunk>, p: (int, int, int)) -> Option<BlockId>
    decreases chunks.len(),
{
    if chunks.len() == 0 {
        None
    } else if holds(chunks[0], p) {
        Some(
            chunks[0].data.block_at(
                p.0 - chunks[0].origin.x,
                p.1 - chunks[0].origin.y,
                p.2 - chunks[0].origin.z,
            ),
        )
    } else {
        block_in(chunks.drop_first(), p)
    }
}

/// The place is in a chunk and not air.
pub open spec fn solid_at(chunks: Seq<RayChunk>, p: (int, int, int)) -> bool {
    match block_in(chunks, p) {
        Some(id) => id != 0,
        None => false,
    }
}

/// The block at a place, from the first of the chunks that it lies in.
fn get_block_at(x: i32, y: i32, z: i32, chunks: &Vec<RayChunk>) -> (r: Option<BlockId>)
    requires
        forall|i: int| 0 <= i < chunks@.len() ==> (#[trigger] chunks@[i]).data.wf(),
    ensures
        r == block_in(chunks@, (x as int, y as int, z as int)),
{
    let ghost p = (x as int, y as int, z as int);
    let mut i: usize = 0;
    assert(chunks@.skip(0) =~= chunks@);
    while i < chunks.len()
        invariant
            i <= chunks@.len(),
            p == (x as int, y as int, z as int),
            forall|i: int| 0 <= i < chunks@.len() ==> (#[trigger] chunks@[i]).data.wf(),
            block_in(chunks@, p) == block_in(chunks@.skip(i as int), p),
        decreases chunks@.len() - i,
    {
        let c: &RayChunk = &chunks[i];
        assert(chunks@.skip(i as int)[0] == chunks@[i as int]);
        assert(chunks@.skip(i as int).drop_first() =~= chunks@.skip(i + 1));
        let lx: i64 = x as i64 - c.origin.x as i64;
        let ly: i64 = y as i64 - c.origin.y as i64;
        let lz: i64 = z as i64 - c.origin.z as i64;
        let size: i64 = CHUNK_SIZE as i64;
        if lx >= 0 && lx < size && ly >= 0 && ly < size && lz >= 0 && lz < size {
            return Some(c.data.get(lx as usize, ly as usize, lz as usize));
        }
        i = i + 1;
    }
    None
}

/// Follows a path through the chunks to the first block that is not air.
pub fn cast_ray(path: &RayPath, chunks: &Vec<RayChunk>) -> (r: Option<VoxelHit>)
    requires
        path.fits(),
        forall|i: int| 0 <= i < chunks@.len() ==> (#[trigger] chunks@[i]).data.wf(),
    ensures
        r is None <==> forall|k: int|
            0 <= k <= path.followed() ==> !solid_at(chunks@, #[trigger] path.block_after(k)),
        r matches Some(hit) ==> {
            let k = hit.steps as int;
            &&& k <= path.followed()
            &&& solid_at(chunks@, path.block_after(k))
            &&& forall|j: int|
                0 <= j < k ==> !solid_at(chunks@, #[trigger] path.block_after(j))
            &&& (hit.block_pos.x as int, hit.block_pos.y as int, hit.block_pos.z as int)
                == path.block_after(k)
            &&& (hit.normal.0 as int, hit.normal.1 as int, hit.normal.2 as int)
                == path.normal_after(k)
        },
{
    let step_x: i32 = if path.forward_x {
        1
    } else {
        -1
    };
    let step_y: i32 = if path.forward_y {
        1
    } else {
        -1
    };
    let step_z: i32 = if path.forward_z {
        1
    } else {
        -1
    };
    let mut x: i32 = path.start.x;
    let mut y: i32 = path.start.y;
    let mut z: i32 = path.start.z;
    let mut normal: (i32, i32, i32) = (0, 0, 0);
    let mut k: usize = 0;
    while k < MAX_RAY_STEPS
        invariant
            k <= MAX_RAY_STEPS,
            k <= path.followed() + 1,
            path.fits(),
            step_x == sign(path.forward_x),
            step_y == sign(path.forward_y),
            step_z == sign(path.forward_z),
            forall|i: int| 0 <= i < chunks@.len() ==> (#[trigger] chunks@[i]).data.wf(),
            k <= path.followed() ==> (x as int, y as int, z as int) == path.block_after(k as int),
            k <= path.followed() ==> (normal.0 as int, normal.1 as int, normal.2 as int)
                == path.normal_after(k as int),
            k <= path.followed(),
            path.start.x - k <= x <= path.start.x + k,
            path.start.y - k <= y <= path.start.y + k,
            path.start.z - k <= z <= path.start.z + k,
            forall|j: int| 0 <= j < k ==> !solid_at(chunks@, #[trigger] path.block_after(j)),
        decreases MAX_RAY_STEPS - k,
    {
        match get_block_at(x, y, z, chunks) {
            Some(block_id) => {
                if block_id != 0 {
                    assert(solid_at(chunks@, path.block_after(k as int)));
                    return Some(
                        VoxelHit { block_pos: BlockPos { x, y, z }, normal, steps: k },
                    );
                }
            },
            None => {},
        }
        assert(!solid_at(chunks@, path.block_after(k as int)));
        if k >= path.axes.len() || k + 1 >= MAX_RAY_STEPS {
            assert(k == path.followed());
            return None;
        }
        match path.axes[k] {
            Axis::X => {
                x = x + step_x;
                normal = (-step_x, 0, 0);
            },
            Axis::Y => {
                y = y + step_y;
                normal = (0, -step_y, 0);
            },
            Axis::Z => {
                z = z + step_z;
                normal = (0, 0, -step_z);
            },
        }
        k = k + 1;
    }
    None
}

/// Every step goes to a block next to the one before, across one face.
pub proof fn law_steps_are_adjacent(path: RayPath, k: int)
    requires
        1 <= k <= path.axes@.len(),
    ensures
        ({
            let (a, b) = (path.block_after(k - 1), path.block_after(k));
            let n = path.normal_after(k);
            &&& b.0 + n.0 == a.0
            &&& b.1 + n.1 == a.1
            &&& b.2 + n.2 == a.2
        }),
{
}

/// After `k` steps each coordinate has changed by the number of steps along its axis:
/// it has grown by that number if the path goes forward along the axis, and else it has
/// become smaller by it.
pub proof fn law_steps_add_up(path: RayPath, k: int)
    requires
        0 <= k <= path.axes@.len(),
    ensures
        ({
            let taken = path.axes@.take(k).to_multiset();
            let (x, y, z) = path.block_after(k);
            &&& path.forward_x ==> x == path.start.x + taken.count(Axis::X)
            &&& !path.forward_x ==> x == path.start.x - taken.count(Axis::X)
            &&& path.forward_y ==> y == path.start.y + taken.count(Axis::Y)
            &&& !path.forward_y ==> y == path.start.y - taken.count(Axis::Y)
            &&& path.forward_z ==> z == path.start.z + taken.count(Axis::Z)
            &&& !path.forward_z ==> z == path.start.z - taken.count(Axis::Z)
        }),
    decreases k,
{
    broadcast use vstd::seq_lib::group_to_multiset_ensures;

    if k > 0 {
        law_steps_add_up(path, k - 1);
        assert(path.axes@.take(k) =~= path.axes@.take(k - 1).push(path.axes@[k - 1]));
    } else {
        assert(path.axes@.take(0) =~= Seq::<Axis>::empty());
        assert(Seq::<Axis>::empty().to_multiset() =~= vstd::multiset::Multiset::empty());
    }
}

/// A ray looks at 192 blocks, or at all blocks of its path if there are fewer.
pub proof fn law_blocks_looked_at(path: RayPath)
    ensures
        path.followed() + 1 <= 192,
        path.followed() <= path.axes@.len(),
        path.followed() + 1 < 192 ==> path.followed() == path.axes@.len(),
        path.followed() >= 0,
{
}

/// The block at a place is that of the first chunk that reaches over it, if one does: a
/// chunk reaches 32 blocks from its first block along each axis.
pub proof fn law_first_chunk_counts(chunks: Seq<RayChunk>, p: (int, int, int), i: int)
    requires
        0 <= i < chunks.len(),
        0 <= p.0 - chunks[i].origin.x < 32,
        0 <= p.1 - chunks[i].origin.y < 32,
        0 <= p.2 - chunks[i].origin.z < 32,
        forall|j: int|
            0 <= j < i ==> !({
                let o = (#[trigger] chunks[j]).origin;
                0 <= p.0 - o.x < 32 && 0 <= p.1 - o.y < 32 && 0 <= p.2 - o.z < 32
            }),
    ensures
        block_in(chunks, p) == Some(
            chunks[i].data.block_at(
                p.0 - chunks[i].origin.x,
                p.1 - chunks[i].origin.y,
                p.2 - chunks[i].origin.z,
            ),
        ),
    decreases i,
{
    if i > 0 {
        assert(chunks[0] == chunks[0]);
        let rest = chunks.drop_first();
        assert forall|j: int| 0 <= j < i - 1 implies !({
            let o = (#[trigger] rest[j]).origin;
            0 <= p.0 - o.x < 32 && 0 <= p.1 - o.y < 32 && 0 <= p.2 - o.z < 32
        }) by {
            assert(rest[j] == chunks[j + 1]);
        }
        assert(rest[i - 1] == chunks[i]);
        law_first_chunk_counts(rest, p, i - 1);
    }
}

/// Where no chunk reaches there is no block.
pub proof fn law_no_chunk_no_block(chunks: Seq<RayChunk>, p: (int, int, int))
    requires
        forall|j: int|
            0 <= j < chunks.len() ==> !({
                let o = (#[trigger] chunks[j]).origin;
                0 <= p.0 - o.x < 32 && 0 <= p.1 - o.y < 32 && 0 <= p.2 - o.z < 32
            }),
    ensures
        block_in(chunks, p) is None,
        !solid_at(chunks, p),
    decreases chunks.len(),
{
    if chunks.len() > 0 {
        assert(chunks[0] == chunks[0]);
        let rest = chunks.drop_first();
        assert forall|j: int| 0 <= j < rest.len() implies !({
            let o = (#[trigger] rest[j]).origin;
            0 <= p.0 - o.x < 32 && 0 <= p.1 - o.y < 32 && 0 <= p.2 - o.z < 32
        }) by {
            assert(rest[j] == chunks[j + 1]);
        }
        law_no_chunk_no_block(rest, p);
    }
}

} // verus!
