//! Levels of detail: how coarsely a chunk is drawn, by its distance.

use crate::block_definition;
use crate::block_definition::BlockPropertiesTable;
use crate::chunk;
use crate::chunk::{should_cull_face, ChunkData, ChunkNeighbors};
use crate::coord_map::CoordMap;
use crate::face;
use crate::face::{face_quad_lod, faces};
use crate::mesh;
use crate::mesh::{Quad, SubMeshData, UvLookupTable};
use crate::types::{rem_chunk, BlockId, ChunkCoord, CHUNK_SIZE};
use vstd::prelude::*;

verus! {

/// A level of detail.
#[derive(Clone, Copy, Debug, PartialEq, Eq, Hash, Structural)]
pub enum LodLevel {
    Lod0,
    Lod1,
    Lod2,
    Lod3,
}

impl LodLevel {
    /// The number of the coarsest level.
    pub const MAX: usize = 3;

    /// The number of the level.
    pub open spec fn spec_rank(self) -> int {
        match self {
            LodLevel::Lod0 => 0,
            LodLevel::Lod1 => 1,
            LodLevel::Lod2 => 2,
            LodLevel::Lod3 => 3,
        }
    }

    /// The number of the level.
    pub fn rank(self) -> (r: usize)
        ensures
            r == self.spec_rank(),
            r <= LodLevel::MAX,
    {
        match self {
            LodLevel::Lod0 => 0,
            LodLevel::Lod1 => 1,
            LodLevel::Lod2 => 2,
            LodLevel::Lod3 => 3,
        }
    }

    /// How many blocks are drawn as one, along each axis.
    pub open spec fn spec_step(self) -> int {
        match self {
            LodLevel::Lod0 => 1,
            LodLevel::Lod1 => 2,
            LodLevel::Lod2 => 4,
            LodLevel::Lod3 => 8,
        }
    }

    /// How many blocks are drawn as one, along each axis.
    pub fn step(self) -> (r: usize)
        ensures
            r == self.spec_step(),
    {
        match self {
            LodLevel::Lod0 => 1,
            LodLevel::Lod1 => 2,
            LodLevel::Lod2 => 4,
            LodLevel::Lod3 => 8,
        }
    }

    /// How many cells a chunk has along each axis.
    pub open spec fn spec_size(self) -> int {
        match self {
            LodLevel::Lod0 => 32,
            LodLevel::Lod1 => 16,
            LodLevel::Lod2 => 8,
            LodLevel::Lod3 => 4,
        }
    }

    /// How many cells a chunk has along each axis.
    pub fn sampling_size(self) -> (r: usize)
        ensures
            r == self.spec_size(),
    {
        match self {
            LodLevel::Lod0 => CHUNK_SIZE,
            LodLevel::Lod1 => 16,
            LodLevel::Lod2 => 8,
            LodLevel::Lod3 => 4,
        }
    }

    /// The level at a squared distance in chunks: the finest below 9 chunks, the
    /// next below 17, the next below 25.
    pub open spec fn spec_at(dist_sq: int) -> LodLevel {
        if dist_sq < 81 {
            LodLevel::Lod0
        } else if dist_sq < 289 {
            LodLevel::Lod1
        } else if dist_sq < 625 {
            LodLevel::Lod2
        } else {
            LodLevel::Lod3
        }
    }

    /// The level at a squared distance in chunks.
    pub fn from_chunk_distance_sq(dist_sq: i32) -> (r: Self)
        ensures
            r == Self::spec_at(dist_sq as int),
    {
        if dist_sq < 81 {
            LodLevel::Lod0
        } else if dist_sq < 289 {
            LodLevel::Lod1
        } else if dist_sq < 625 {
            LodLevel::Lod2
        } else {
            LodLevel::Lod3
        }
    }

    /// The distance up to which a level is meant.
    pub open spec fn spec_threshold(self) -> int {
        match self {
            LodLevel::Lod0 => 8,
            LodLevel::Lod1 => 16,
            LodLevel::Lod2 => 24,
            LodLevel::Lod3 => 32,
        }
    }

    /// The distance up to which a level is meant.
    fn threshold(self) -> (r: i32)
        ensures
            r == self.spec_threshold(),
    {
        match self {
            LodLevel::Lod0 => 8,
            LodLevel::Lod1 => 16,
            LodLevel::Lod2 => 24,
            LodLevel::Lod3 => 32,
        }
    }
}

/// Cells times step make a chunk.
pub proof fn law_size_times_step(lod: LodLevel)
    ensures
        lod.spec_size() * lod.spec_step() == CHUNK_SIZE,
{
}

/// Nothing nearer is drawn more coarsely.
pub proof fn law_coarser_with_distance(a: int, b: int)
    requires
        a <= b,
    ensures
        LodLevel::spec_at(a).spec_rank() <= LodLevel::spec_at(b).spec_rank(),
{
}

/// The squared distance of two chunks.
pub open spec fn distance_sq(a: ChunkCoord, b: ChunkCoord) -> int {
    (a.cx - b.cx) * (a.cx - b.cx) + (a.cy - b.cy) * (a.cy - b.cy) + (a.cz - b.cz) * (a.cz - b.cz)
}

/// The squared distance of two chunks can be computed with 32 bits.
pub open spec fn in_range(a: ChunkCoord, b: ChunkCoord) -> bool {
    distance_sq(a, b) <= i32::MAX
}

/// What 32 bits allow of each difference.
pub proof fn lemma_in_range(a: ChunkCoord, b: ChunkCoord)
    requires
        in_range(a, b),
    ensures
        -46341 < a.cx - b.cx < 46341,
        -46341 < a.cy - b.cy < 46341,
        -46341 < a.cz - b.cz < 46341,
        0 <= (a.cx - b.cx) * (a.cx - b.cx),
        0 <= (a.cy - b.cy) * (a.cy - b.cy),
        0 <= (a.cz - b.cz) * (a.cz - b.cz),
{
    let (x, y, z) = (a.cx - b.cx, a.cy - b.cy, a.cz - b.cz);
    assert(0 <= x * x && 0 <= y * y && 0 <= z * z) by (nonlinear_arith);
    assert(x * x <= 0x7fff_ffff ==> -46341 < x < 46341) by (nonlinear_arith);
    assert(y * y <= 0x7fff_ffff ==> -46341 < y < 46341) by (nonlinear_arith);
    assert(z * z <= 0x7fff_ffff ==> -46341 < z < 46341) by (nonlinear_arith);
}

/// The squared distance of two chunks.
pub fn chunk_distance_sq(a: ChunkCoord, b: ChunkCoord) -> (r: i32)
    requires
        in_range(a, b),
    ensures
        r == distance_sq(a, b),
        r >= 0,
{
    proof {
        lemma_in_range(a, b);
    }
    let dx: i32 = a.cx - b.cx;
    let dy: i32 = a.cy - b.cy;
    let dz: i32 = a.cz - b.cz;
    dx * dx + dy * dy + dz * dz
}

/// Whether a chunk changes its level: to a finer one at once, to a coarser one
/// only four chunks beyond the distance up to which its level is meant.
pub open spec fn switches(current: LodLevel, dist_sq: int) -> bool {
    let new = LodLevel::spec_at(dist_sq);
    let t = current.spec_threshold() + 4;
    new != current && (new.spec_rank() < current.spec_rank() || dist_sq > t * t)
}

/// The level that a chunk has; the finest if none was set.
pub open spec fn lod_in(lods: Map<ChunkCoord, LodLevel>, c: ChunkCoord) -> LodLevel {
    if lods.contains_key(c) {
        lods[c]
    } else {
        LodLevel::Lod0
    }
}

/// The levels after the chunks of `coords` have been looked at in turn.
pub open spec fn lods_after(
    lods: Map<ChunkCoord, LodLevel>,
    coords: Seq<ChunkCoord>,
    player: ChunkCoord,
) -> Map<ChunkCoord, LodLevel>
    decreases coords.len(),
{
    if coords.len() == 0 {
        lods
    } else {
        let before = lods_after(lods, coords.drop_last(), player);
        let c = coords.last();
        let d = distance_sq(c, player);
        if switches(lod_in(before, c), d) {
            before.insert(c, LodLevel::spec_at(d))
        } else {
            before
        }
    }
}

/// The changes of level as the chunks of `coords` are looked at in turn.
pub open spec fn changes_after(
    lods: Map<ChunkCoord, LodLevel>,
    coords: Seq<ChunkCoord>,
    player: ChunkCoord,
) -> Seq<(ChunkCoord, LodLevel)>
    decreases coords.len(),
{
    if coords.len() == 0 {
        seq![]
    } else {
        let before = changes_after(lods, coords.drop_last(), player);
        let c = coords.last();
        let d = distance_sq(c, player);
        if switches(lod_in(lods_after(lods, coords.drop_last(), player), c), d) {
            before.push((c, LodLevel::spec_at(d)))
        } else {
            before
        }
    }
}

/// Which level each chunk is drawn at.
pub struct LodManager {
    chunk_lods: CoordMap<LodLevel>,
    last_player_chunk: Option<ChunkCoord>,
}

impl LodManager {
    /// The levels are consistent.
    pub closed spec fn wf(&self) -> bool {
        self.chunk_lods.wf()
    }

    /// The levels that have been set.
    pub closed spec fn lods(&self) -> Map<ChunkCoord, LodLevel> {
        self.chunk_lods@
    }

    /// Where the player was when all chunks were last looked at.
    pub closed spec fn last(&self) -> Option<ChunkCoord> {
        self.last_player_chunk
    }

    /// No levels.
    pub fn new() -> (r: Self)
        ensures
            r.wf(),
            r.lods() == Map::<ChunkCoord, LodLevel>::empty(),
            r.last() is None,
    {
        Self { chunk_lods: CoordMap::new(), last_player_chunk: None }
    }

    /// Looks at the loaded chunks in turn and changes their levels where the
    /// distance to the player asks for it. Returns the changes.
    pub fn update(&mut self, player_chunk: ChunkCoord, loaded: &Vec<ChunkCoord>) -> (r: Vec<
        (ChunkCoord, LodLevel),
    >)
        requires
            old(self).wf(),
            forall|i: int| 0 <= i < loaded@.len() ==> in_range(#[trigger] loaded@[i], player_chunk),
        ensures
            final(self).wf(),
            final(self).last() == old(self).last(),
            final(self).lods() == lods_after(old(self).lods(), loaded@, player_chunk),
            r@ == changes_after(old(self).lods(), loaded@, player_chunk),
    {
        let mut to_rebuild: Vec<(ChunkCoord, LodLevel)> = Vec::new();
        let mut i: usize = 0;
        assert(loaded@.take(0) =~= seq![]);
        while i < loaded.len()
            invariant
                i <= loaded@.len(),
                self.wf(),
                self.last() == old(self).last(),
                forall|i: int|
                    0 <= i < loaded@.len() ==> in_range(#[trigger] loaded@[i], player_chunk),
                self.lods() == lods_after(old(self).lods(), loaded@.take(i as int), player_chunk),
                to_rebuild@ == changes_after(
                    old(self).lods(),
                    loaded@.take(i as int),
                    player_chunk,
                ),
            decreases loaded@.len() - i,
        {
            let coord: ChunkCoord = loaded[i];
            assert(loaded@.take(i + 1).drop_last() =~= loaded@.take(i as int));
            assert(loaded@.take(i + 1).last() == coord);
            let dist_sq: i32 = chunk_distance_sq(coord, player_chunk);
            let new_lod: LodLevel = LodLevel::from_chunk_distance_sq(dist_sq);
            let current_lod: LodLevel = self.get_lod(&coord);
            if new_lod != current_lod {
                if should_switch_sq(current_lod, new_lod, dist_sq) {
                    self.chunk_lods.insert(coord, new_lod);
                    to_rebuild.push((coord, new_lod));
                }
            }
            i = i + 1;
        }
        assert(loaded@.take(i as int) =~= loaded@);
        to_rebuild
    }

    /// Looks at the loaded chunks if the player has come to another chunk.
    pub fn update_incremental(&mut self, player_chunk: ChunkCoord, loaded: &Vec<ChunkCoord>) -> (r:
        Vec<(ChunkCoord, LodLevel)>)
        requires
            old(self).wf(),
            forall|i: int| 0 <= i < loaded@.len() ==> in_range(#[trigger] loaded@[i], player_chunk),
        ensures
            final(self).wf(),
            final(self).last() == Some(player_chunk),
            old(self).last() == Some(player_chunk) ==> r@.len() == 0 && final(self).lods() == old(
                self,
            ).lods(),
            old(self).last() != Some(player_chunk) ==> {
                &&& final(self).lods() == lods_after(old(self).lods(), loaded@, player_chunk)
                &&& r@ == changes_after(old(self).lods(), loaded@, player_chunk)
            },
    {
        match self.last_player_chunk {
            Some(last) => {
                if last == player_chunk {
                    return Vec::new();
                }
            },
            None => {},
        }
        self.last_player_chunk = Some(player_chunk);
        self.update(player_chunk, loaded)
    }

    /// The level of a chunk; the finest if none was set.
    pub fn get_lod(&self, coord: &ChunkCoord) -> (r: LodLevel)
        ensures
            r == lod_in(self.lods(), *coord),
    {
        match self.chunk_lods.get(coord) {
            Some(lod) => *lod,
            None => LodLevel::Lod0,
        }
    }

    /// Sets the level of a chunk.
    pub fn set_lod(&mut self, coord: ChunkCoord, lod: LodLevel)
        requires
            old(self).wf(),
        ensures
            final(self).wf(),
            final(self).last() == old(self).last(),
            final(self).lods() == old(self).lods().insert(coord, lod),
    {
        self.chunk_lods.insert(coord, lod);
    }

    /// Forgets the level of a chunk.
    pub fn remove(&mut self, coord: &ChunkCoord)
        requires
            old(self).wf(),
        ensures
            final(self).wf(),
            final(self).last() == old(self).last(),
            final(self).lods() == old(self).lods().remove(*coord),
    {
        self.chunk_lods.remove(coord);
    }
}

impl Default for LodManager {
    /// No levels.
    fn default() -> (r: Self)
        ensures
            r.wf(),
            r.lods() == Map::<ChunkCoord, LodLevel>::empty(),
            r.last() is None,
    {
        Self::new()
    }
}

/// Whether the distance is enough to leave a level for another.
fn should_switch_sq(current: LodLevel, new: LodLevel, dist_sq: i32) -> (r: bool)
    ensures
        r == (new.spec_rank() < current.spec_rank() || dist_sq > (current.spec_threshold() + 4) * (
        current.spec_threshold() + 4)),
{
    if new.rank() < current.rank() {
        true
    } else {
        let threshold: i32 = current.threshold() + 4;
        proof {
            let t = threshold as int;
            assert(12 * 12 == 144 && 20 * 20 == 400 && 28 * 28 == 784 && 36 * 36 == 1296);
            assert(t == 12 || t == 20 || t == 28 || t == 36);
            assert(0 <= t * t <= 1296);
        }
        dist_sq > threshold * threshold
    }
}

/// A chunk that has changed its level does not change it again at the same
/// distance.
pub proof fn law_switch_settles(current: LodLevel, dist_sq: int)
    requires
        switches(current, dist_sq),
    ensures
        !switches(LodLevel::spec_at(dist_sq), dist_sq),
{
}

/// The first block in a row that is not air, from `dx` on.
pub open spec fn first_in_row(c: ChunkData, x: int, y: int, z: int, step: int, dx: int) -> BlockId
    decreases step - dx,
{
    if dx >= step {
        0
    } else if c.block_at(x + dx, y, z) != 0 {
        c.block_at(x + dx, y, z)
    } else {
        first_in_row(c, x, y, z, step, dx + 1)
    }
}

/// The first block in a horizontal square that is not air, from row `dz` on.
pub open spec fn first_in_square(
    c: ChunkData,
    x: int,
    y: int,
    z: int,
    step: int,
    dz: int,
) -> BlockId
    decreases step - dz,
{
    if dz >= step {
        0
    } else if first_in_row(c, x, y, z + dz, step, 0) != 0 {
        first_in_row(c, x, y, z + dz, step, 0)
    } else {
        first_in_square(c, x, y, z, step, dz + 1)
    }
}

/// The first block in a cube that is not air, from the square below `dy`
/// downwards.
pub open spec fn first_from_top(
    c: ChunkData,
    x: int,
    y: int,
    z: int,
    step: int,
    dy: int,
) -> BlockId
    decreases dy,
{
    if dy <= 0 {
        0
    } else if first_in_square(c, x, y + dy - 1, z, step, 0) != 0 {
        first_in_square(c, x, y + dy - 1, z, step, 0)
    } else {
        first_from_top(c, x, y, z, step, dy - 1)
    }
}

/// The block that stands for a cube: the first that is not air, top square
/// first; air if there is none.
pub open spec fn dominant(c: ChunkData, x: int, y: int, z: int, step: int) -> BlockId {
    first_from_top(c, x, y, z, step, step)
}

/// The block that stands for a cube.
fn sample_dominant_block(
    chunk: &ChunkData,
    base_x: usize,
    base_y: usize,
    base_z: usize,
    step: usize,
) -> (r: BlockId)
    requires
        chunk.wf(),
        base_x <= 32,
        base_y <= 32,
        base_z <= 32,
        step <= 32,
    ensures
        r == dominant(*chunk, base_x as int, base_y as int, base_z as int, step as int),
{
    let mut top: usize = step;
    while top > 0
        invariant
            top <= step,
            chunk.wf(),
            base_x <= 32,
            base_y <= 32,
            base_z <= 32,
            step <= 32,
            dominant(*chunk, base_x as int, base_y as int, base_z as int, step as int)
                == first_from_top(
                *chunk,
                base_x as int,
                base_y as int,
                base_z as int,
                step as int,
                top as int,
            ),
        decreases top,
    {
        let dy: usize = top - 1;
        let y: usize = base_y + dy;
        let mut dz: usize = 0;
        while dz < step
            invariant
                dz <= step,
                dy == top - 1,
                y == base_y + dy,
                dy < step,
                chunk.wf(),
                base_x <= 32,
                base_y <= 32,
                base_z <= 32,
                step <= 32,
                dominant(*chunk, base_x as int, base_y as int, base_z as int, step as int)
                    == first_from_top(
                    *chunk,
                    base_x as int,
                    base_y as int,
                    base_z as int,
                    step as int,
                    top as int,
                ),
                first_in_square(*chunk, base_x as int, y as int, base_z as int, step as int, 0)
                    == first_in_square(
                    *chunk,
                    base_x as int,
                    y as int,
                    base_z as int,
                    step as int,
                    dz as int,
                ),
            decreases step - dz,
        {
            let z: usize = base_z + dz;
            let mut dx: usize = 0;
            while dx < step
                invariant
                    dx <= step,
                    dz < step,
                    dy == top - 1,
                    y == base_y + dy,
                    z == base_z + dz,
                    dy < step,
                    chunk.wf(),
                    base_x <= 32,
                    base_y <= 32,
                    base_z <= 32,
                    step <= 32,
                    dominant(*chunk, base_x as int, base_y as int, base_z as int, step as int)
                        == first_from_top(
                        *chunk,
                        base_x as int,
                        base_y as int,
                        base_z as int,
                        step as int,
                        top as int,
                    ),
                    first_in_square(*chunk, base_x as int, y as int, base_z as int, step as int, 0)
                        == first_in_square(
                        *chunk,
                        base_x as int,
                        y as int,
                        base_z as int,
                        step as int,
                        dz as int,
                    ),
                    first_in_row(*chunk, base_x as int, y as int, z as int, step as int, 0)
                        == first_in_row(
                        *chunk,
                        base_x as int,
                        y as int,
                        z as int,
                        step as int,
                        dx as int,
                    ),
                decreases step - dx,
            {
                let id: BlockId = chunk.get(base_x + dx, y, z);
                if id != 0 {
                    return id;
                }
                dx = dx + 1;
            }
            dz = dz + 1;
        }
        top = top - 1;
    }
    0
}

/// The level is coarser than the finest.
pub open spec fn coarse(lod: LodLevel) -> bool {
    lod != LodLevel::Lod0
}

/// The cell with number `k`, of `size` along each axis: x, y, z.
pub open spec fn cell_at(k: int, size: int) -> (int, int, int) {
    (k % size, (k / size) % size, k / (size * size))
}

/// The number of a cell.
pub open spec fn cell_number(sx: int, sy: int, sz: int, size: int) -> int {
    sz * size * size + sy * size + sx
}

/// A cell of a grid of 16 by 16 by 16 is found again from its number.
proof fn lemma_number_16(sx: int, sy: int, sz: int)
    requires
        0 <= sx < 16,
        0 <= sy < 16,
        0 <= sz < 16,
    ensures
        cell_number(sx, sy, sz, 16) == sz * 256 + sy * 16 + sx,
        cell_at(sz * 256 + sy * 16 + sx, 16) == (sx, sy, sz),
        0 <= sz * 256 + sy * 16 + sx < 4096,
{
    let k = sz * 256 + sy * 16 + sx;
    assert(16int * 16 == 256);
    assert(sz * 16 * 16 == sz * 256);
    assert(k % 16 == sx);
    assert(k / 16 == sz * 16 + sy);
    assert((k / 16) % 16 == sy);
    assert(k / 256 == sz);
}

/// A cell of a grid of 8 by 8 by 8 is found again from its number.
proof fn lemma_number_8(sx: int, sy: int, sz: int)
    requires
        0 <= sx < 8,
        0 <= sy < 8,
        0 <= sz < 8,
    ensures
        cell_number(sx, sy, sz, 8) == sz * 64 + sy * 8 + sx,
        cell_at(sz * 64 + sy * 8 + sx, 8) == (sx, sy, sz),
        0 <= sz * 64 + sy * 8 + sx < 512,
{
    let k = sz * 64 + sy * 8 + sx;
    assert(8int * 8 == 64);
    assert(sz * 8 * 8 == sz * 64);
    assert(k % 8 == sx);
    assert(k / 8 == sz * 8 + sy);
    assert((k / 8) % 8 == sy);
    assert(k / 64 == sz);
}

/// A cell of a grid of 4 by 4 by 4 is found again from its number.
proof fn lemma_number_4(sx: int, sy: int, sz: int)
    requires
        0 <= sx < 4,
        0 <= sy < 4,
        0 <= sz < 4,
    ensures
        cell_number(sx, sy, sz, 4) == sz * 16 + sy * 4 + sx,
        cell_at(sz * 16 + sy * 4 + sx, 4) == (sx, sy, sz),
        0 <= sz * 16 + sy * 4 + sx < 64,
{
    let k = sz * 16 + sy * 4 + sx;
    assert(4int * 4 == 16);
    assert(sz * 4 * 4 == sz * 16);
    assert(k % 4 == sx);
    assert(k / 4 == sz * 4 + sy);
    assert((k / 4) % 4 == sy);
    assert(k / 16 == sz);
}

/// A cell is found again from its number.
proof fn lemma_cell(lod: LodLevel, sx: int, sy: int, sz: int)
    requires
        coarse(lod),
        0 <= sx < lod.spec_size(),
        0 <= sy < lod.spec_size(),
        0 <= sz < lod.spec_size(),
    ensures
        ({
            let size = lod.spec_size();
            &&& cell_at(cell_number(sx, sy, sz, size), size) == (sx, sy, sz)
            &&& 0 <= cell_number(sx, sy, sz, size) < size * size * size
            &&& size * size * size <= 4096
        }),
{
    assert(16int * 16 * 16 == 4096 && 8int * 8 * 8 == 512 && 4int * 4 * 4 == 64);
    match lod {
        LodLevel::Lod1 => {
            lemma_number_16(sx, sy, sz);
        },
        LodLevel::Lod2 => {
            lemma_number_8(sx, sy, sz);
        },
        _ => {
            lemma_number_4(sx, sy, sz);
        },
    }
}

/// A cell with a number lies in a grid of 16 by 16 by 16.
proof fn lemma_cell_16(k: int)
    requires
        0 <= k < 4096,
    ensures
        cell_at(k, 16) == (k % 16, (k / 16) % 16, k / 256),
        0 <= k / 256 < 16,
        cell_number(k % 16, (k / 16) % 16, k / 256, 16) == k,
{
    assert(16 * 16 == 256);
    assert(k / 256 == (k / 16) / 16);
    assert((k / 256) * 16 * 16 == (k / 256) * 256);
}

/// A cell with a number lies in a grid of 8 by 8 by 8.
proof fn lemma_cell_8(k: int)
    requires
        0 <= k < 512,
    ensures
        cell_at(k, 8) == (k % 8, (k / 8) % 8, k / 64),
        0 <= k / 64 < 8,
        cell_number(k % 8, (k / 8) % 8, k / 64, 8) == k,
{
    assert(8 * 8 == 64);
    assert(k / 64 == (k / 8) / 8);
    assert((k / 64) * 8 * 8 == (k / 64) * 64);
}

/// A cell with a number lies in a grid of 4 by 4 by 4.
proof fn lemma_cell_4(k: int)
    requires
        0 <= k < 64,
    ensures
        cell_at(k, 4) == (k % 4, (k / 4) % 4, k / 16),
        0 <= k / 16 < 4,
        cell_number(k % 4, (k / 4) % 4, k / 16, 4) == k,
{
    assert(4 * 4 == 16);
    assert(k / 16 == (k / 4) / 4);
    assert((k / 16) * 4 * 4 == (k / 16) * 16);
}

/// A cell with a number lies in the grid, and its blocks in the chunk.
proof fn lemma_cell_bounds(lod: LodLevel, k: int)
    requires
        coarse(lod),
        0 <= k < lod.spec_size() * lod.spec_size() * lod.spec_size(),
    ensures
        ({
            let (size, step) = (lod.spec_size(), lod.spec_step());
            let (sx, sy, sz) = cell_at(k, size);
            &&& 0 <= sx < size
            &&& 0 <= sy < size
            &&& 0 <= sz < size
            &&& cell_number(sx, sy, sz, size) == k
            &&& 0 <= sx * step <= 32 - step
            &&& 0 <= sy * step <= 32 - step
            &&& 0 <= sz * step <= 32 - step
            &&& size * size * size <= 4096
            &&& 0 < size * size <= 256
        }),
{
    let size = lod.spec_size();
    if size == 16 {
        lemma_cell_16(k);
    } else if size == 8 {
        lemma_cell_8(k);
    } else {
        lemma_cell_4(k);
    }
}

/// The block that stands for each cell of a chunk.
struct LodDominantGrid {
    grid: Vec<BlockId>,
    size: usize,
    step: usize,
}

impl LodDominantGrid {
    /// The grid is that of a chunk at a level.
    spec fn is_grid_of(&self, chunk: ChunkData, lod: LodLevel) -> bool {
        let (size, step) = (lod.spec_size(), lod.spec_step());
        &&& self.size == size
        &&& self.step == step
        &&& self.grid@.len() == size * size * size
        &&& forall|k: int|
            0 <= k < self.grid@.len() ==> #[trigger] self.grid@[k] == dominant(
                chunk,
                cell_at(k, size).0 * step,
                cell_at(k, size).1 * step,
                cell_at(k, size).2 * step,
                step,
            )
    }

    /// Computes the grid of a chunk.
    fn from_chunk(chunk: &ChunkData, lod: LodLevel) -> (r: Self)
        requires
            chunk.wf(),
            coarse(lod),
        ensures
            r.is_grid_of(*chunk, lod),
    {
        let size: usize = lod.sampling_size();
        let step: usize = lod.step();
        proof {
            lemma_cell(lod, 0, 0, 0);
            lemma_cell_bounds(lod, 0);
        }
        let volume: usize = size * size * size;
        let mut grid: Vec<BlockId> = Vec::new();
        let mut k: usize = 0;
        while k < volume
            invariant
                k <= volume,
                chunk.wf(),
                coarse(lod),
                size == lod.spec_size(),
                step == lod.spec_step(),
                volume == size * size * size,
                grid@.len() == k,
                forall|j: int|
                    0 <= j < k ==> #[trigger] grid@[j] == dominant(
                        *chunk,
                        cell_at(j, size as int).0 * step,
                        cell_at(j, size as int).1 * step,
                        cell_at(j, size as int).2 * step,
                        step as int,
                    ),
            decreases volume - k,
        {
            proof {
                lemma_cell_bounds(lod, k as int);
            }
            let sx: usize = k % size;
            let sy: usize = (k / size) % size;
            let sz: usize = k / (size * size);
            grid.push(sample_dominant_block(chunk, sx * step, sy * step, sz * step, step));
            k = k + 1;
        }
        Self { grid, size, step }
    }

    /// The block that stands for a cell.
    fn get(&self, sx: usize, sy: usize, sz: usize, Ghost(chunk): Ghost<ChunkData>, Ghost(lod): Ghost<
        LodLevel,
    >) -> (r: BlockId)
        requires
            coarse(lod),
            self.is_grid_of(chunk, lod),
            sx < lod.spec_size(),
            sy < lod.spec_size(),
            sz < lod.spec_size(),
        ensures
            r == dominant(
                chunk,
                sx * lod.spec_step(),
                sy * lod.spec_step(),
                sz * lod.spec_step(),
                lod.spec_step(),
            ),
    {
        proof {
            lemma_cell(lod, sx as int, sy as int, sz as int);
            let s = self.size as int;
            let (y, z) = (sy as int, sz as int);
            assert(0 <= z * s <= 256 && 0 <= z * s * s <= 4096 && 0 <= y * s <= 256)
                by (nonlinear_arith)
                requires
                    0 <= s <= 16,
                    0 <= y < s,
                    0 <= z < s,
            ;
        }
        self.grid[sz * self.size * self.size + sy * self.size + sx]
    }
}

/// The block that stands for the cube across a face; of the neighbour where the
/// cube does not lie in the chunk.
pub open spec fn lod_across(
    chunk: ChunkData,
    neighbors: ChunkNeighbors,
    step: int,
    nx: int,
    ny: int,
    nz: int,
    f: int,
) -> BlockId {
    if 0 <= nx && 0 <= ny && 0 <= nz && nx + step <= 32 && ny + step <= 32 && nz + step <= 32 {
        dominant(chunk, nx, ny, nz, step)
    } else {
        match neighbors.neighbor_data@[f] {
            Some(data) => dominant(*data, nx % 32, ny % 32, nz % 32, step),
            None => 0,
        }
    }
}

/// The cell and the face with a number: x, y, z in blocks, and the face.
pub open spec fn lod_face_at(n: int, lod: LodLevel) -> (int, int, int, int) {
    let (sx, sy, sz) = cell_at(n / 6, lod.spec_size());
    (sx * lod.spec_step(), sy * lod.spec_step(), sz * lod.spec_step(), n % 6)
}

/// The face with number `n` is to be drawn: its cell is not air, and the cube
/// across does not hide it.
pub open spec fn lod_shown(
    chunk: ChunkData,
    neighbors: ChunkNeighbors,
    props: Option<&BlockPropertiesTable>,
    lod: LodLevel,
    n: int,
) -> bool {
    let (x, y, z, f) = lod_face_at(n, lod);
    let step = lod.spec_step();
    let id = dominant(chunk, x, y, z, step);
    let d = face::spec_face(f).spec_normal();
    id != 0 && !chunk::culled(
        props,
        id,
        lod_across(
            chunk,
            neighbors,
            step,
            x + d[0] * step,
            y + d[1] * step,
            z + d[2] * step,
            f,
        ),
    )
}

/// The quad of the face with number `n`.
pub open spec fn lod_quad_at<T: Copy>(
    chunk: ChunkData,
    uv_table: UvLookupTable<T>,
    lod: LodLevel,
    n: int,
) -> Quad<T> {
    let (x, y, z, f) = lod_face_at(n, lod);
    let step = lod.spec_step();
    let face = face::spec_face(f);
    Quad {
        face,
        origin: (x, y, z),
        extent: (step, step, step),
        uv: uv_table.uv(dominant(chunk, x, y, z, step) as int, face.spec_face_index()),
    }
}

/// The quads of the faces to be drawn among the first `n`.
pub open spec fn lod_quads_upto<T: Copy>(
    chunk: ChunkData,
    neighbors: ChunkNeighbors,
    props: Option<&BlockPropertiesTable>,
    uv_table: UvLookupTable<T>,
    lod: LodLevel,
    n: nat,
) -> Seq<Quad<T>>
    decreases n,
{
    if n == 0 {
        seq![]
    } else {
        let rest = lod_quads_upto(chunk, neighbors, props, uv_table, lod, (n - 1) as nat);
        if lod_shown(chunk, neighbors, props, lod, n - 1) {
            rest.push(lod_quad_at(chunk, uv_table, lod, n - 1))
        } else {
            rest
        }
    }
}

/// The quads of a chunk at a coarse level.
pub open spec fn lod_quads<T: Copy>(
    chunk: ChunkData,
    neighbors: ChunkNeighbors,
    props: Option<&BlockPropertiesTable>,
    uv_table: UvLookupTable<T>,
    lod: LodLevel,
) -> Seq<Quad<T>> {
    if lod == LodLevel::Lod0 || chunk is Empty || chunk == ChunkData::Uniform(0) {
        seq![]
    } else {
        lod_quads_upto(
            chunk,
            neighbors,
            props,
            uv_table,
            lod,
            (lod.spec_size() * lod.spec_size() * lod.spec_size() * 6) as nat,
        )
    }
}

/// There are no more quads than faces.
proof fn lemma_lod_quads_len<T: Copy>(
    chunk: ChunkData,
    neighbors: ChunkNeighbors,
    props: Option<&BlockPropertiesTable>,
    uv_table: UvLookupTable<T>,
    lod: LodLevel,
    n: nat,
)
    ensures
        lod_quads_upto(chunk, neighbors, props, uv_table, lod, n).len() <= n,
    decreases n,
{
    if n > 0 {
        lemma_lod_quads_len(chunk, neighbors, props, uv_table, lod, (n - 1) as nat);
    }
}

/// A cell of air adds nothing.
proof fn lemma_lod_skip<T: Copy>(
    chunk: ChunkData,
    neighbors: ChunkNeighbors,
    props: Option<&BlockPropertiesTable>,
    uv_table: UvLookupTable<T>,
    lod: LodLevel,
    k: int,
)
    requires
        k >= 0,
        ({
            let (sx, sy, sz) = cell_at(k, lod.spec_size());
            let step = lod.spec_step();
            dominant(chunk, sx * step, sy * step, sz * step, step) == 0
        }),
    ensures
        lod_quads_upto(chunk, neighbors, props, uv_table, lod, (k * 6 + 6) as nat)
            == lod_quads_upto(chunk, neighbors, props, uv_table, lod, (k * 6) as nat),
{
    reveal_with_fuel(lod_quads_upto, 7);
    assert forall|n: int| k * 6 <= n < k * 6 + 6 implies !#[trigger] lod_shown(
        chunk,
        neighbors,
        props,
        lod,
        n,
    ) by {
        assert(n / 6 == k);
    }
    assert(!lod_shown(chunk, neighbors, props, lod, k * 6));
    assert(!lod_shown(chunk, neighbors, props, lod, k * 6 + 1));
    assert(!lod_shown(chunk, neighbors, props, lod, k * 6 + 2));
    assert(!lod_shown(chunk, neighbors, props, lod, k * 6 + 3));
    assert(!lod_shown(chunk, neighbors, props, lod, k * 6 + 4));
    assert(!lod_shown(chunk, neighbors, props, lod, k * 6 + 5));
}

/// Whether a face of a cell is visible, where the block of the cell is known.
fn is_face_visible_lod_fast(
    x: usize,
    y: usize,
    z: usize,
    current_id: BlockId,
    face_offset: [i32; 3],
    face_index: usize,
    neighbors: &ChunkNeighbors,
    props: Option<&BlockPropertiesTable>,
    lod: LodLevel,
    grid: &LodDominantGrid,
    Ghost(chunk): Ghost<ChunkData>,
) -> (r: bool)
    requires
        coarse(lod),
        neighbors.wf(),
        grid.is_grid_of(chunk, lod),
        face_index < 6,
        face_offset@ == face::spec_face(face_index as int).spec_normal(),
        x <= 32 - lod.spec_step(),
        y <= 32 - lod.spec_step(),
        z <= 32 - lod.spec_step(),
        x as int % lod.spec_step() == 0,
        y as int % lod.spec_step() == 0,
        z as int % lod.spec_step() == 0,
    ensures
        r == !chunk::culled(
            props,
            current_id,
            lod_across(
                chunk,
                *neighbors,
                lod.spec_step(),
                x + face_offset@[0] * lod.spec_step(),
                y + face_offset@[1] * lod.spec_step(),
                z + face_offset@[2] * lod.spec_step(),
                face_index as int,
            ),
        ),
{
    let step: usize = lod.step();
    let s: i32 = step as i32;
    proof {
        let d = face_offset@;
        let t = step as int;
        lemma_unit_times(d[0] as int, t);
        lemma_unit_times(d[1] as int, t);
        lemma_unit_times(d[2] as int, t);
    }
    let nx: i32 = x as i32 + face_offset[0] * s;
    let ny: i32 = y as i32 + face_offset[1] * s;
    let nz: i32 = z as i32 + face_offset[2] * s;
    let size: i32 = CHUNK_SIZE as i32;
    let neighbor_id: BlockId = if nx >= 0 && ny >= 0 && nz >= 0 && nx + s <= size && ny + s <= size
        && nz + s <= size {
        proof {
            lemma_whole_cells(lod, x as int, nx as int);
            lemma_whole_cells(lod, y as int, ny as int);
            lemma_whole_cells(lod, z as int, nz as int);
        }
        grid.get(
            nx as usize / step,
            ny as usize / step,
            nz as usize / step,
            Ghost(chunk),
            Ghost(lod),
        )
    } else {
        match &neighbors.neighbor_data[face_index] {
            Some(data) => sample_dominant_block(
                data,
                rem_chunk(nx),
                rem_chunk(ny),
                rem_chunk(nz),
                step,
            ),
            None => 0,
        }
    };
    !should_cull_face(props, current_id, neighbor_id)
}

/// What a unit offset makes of the step.
proof fn lemma_unit_times(d: int, t: int)
    requires
        d == 0 || d == 1 || d == -1,
    ensures
        d == 0 ==> d * t == 0,
        d == 1 ==> d * t == t,
        d == -1 ==> d * t == -t,
{
    assert(0 * t == 0 && 1 * t == t && (-1) * t == -t) by (nonlinear_arith);
}

/// A multiple of the step, moved by at most one step, is a multiple of the step.
proof fn lemma_whole_cells(lod: LodLevel, v: int, n: int)
    requires
        coarse(lod),
        v % lod.spec_step() == 0,
        n == v || n == v + lod.spec_step() || n == v - lod.spec_step(),
        0 <= n <= 32 - lod.spec_step(),
    ensures
        (n / lod.spec_step()) * lod.spec_step() == n,
        0 <= n / lod.spec_step() < lod.spec_size(),
{
    let step = lod.spec_step();
    if step == 2 {
        assert((n / 2) * 2 == n);
    } else if step == 4 {
        assert((n / 4) * 4 == n);
    } else {
        assert((n / 8) * 8 == n);
    }
}

/// The meshes of a chunk at a coarse level. Each cell is drawn as one block, and
/// water with the other blocks. The positions are counted in parts of the
/// level's step.
pub fn generate_lod_mesh_separated<T: Copy>(
    chunk: &ChunkData,
    uv_table: &UvLookupTable<T>,
    neighbors: &ChunkNeighbors,
    lod: LodLevel,
    props: Option<&BlockPropertiesTable>,
) -> (r: (SubMeshData<T>, Option<SubMeshData<T>>))
    requires
        chunk.wf(),
        neighbors.wf(),
        uv_table.wf(),
    ensures
        r.0.is_mesh_of(lod_quads(*chunk, *neighbors, props, *uv_table, lod)),
        r.1 is None,
{
    if lod == LodLevel::Lod0 {
        return (SubMeshData::new(), None);
    }
    match chunk {
        ChunkData::Empty => {
            return (SubMeshData::new(), None);
        },
        ChunkData::Uniform(id) => {
            if *id == 0 {
                return (SubMeshData::new(), None);
            }
        },
        ChunkData::Paletted(_) => {},
    }
    let size: usize = lod.sampling_size();
    let step: usize = lod.step();
    let grid: LodDominantGrid = LodDominantGrid::from_chunk(chunk, lod);
    let mut out: SubMeshData<T> = SubMeshData::new();
    proof {
        lemma_cell(lod, 0, 0, 0);
        lemma_cell_bounds(lod, 0);
    }
    let volume: usize = size * size * size;
    let mut k: usize = 0;
    while k < volume
        invariant
            k <= volume <= 4096,
            coarse(lod),
            chunk.wf(),
            neighbors.wf(),
            uv_table.wf(),
            size == lod.spec_size(),
            step == lod.spec_step(),
            volume == size * size * size,
            grid.is_grid_of(*chunk, lod),
            out.is_mesh_of(
                lod_quads_upto(*chunk, *neighbors, props, *uv_table, lod, (k * 6) as nat),
            ),
        decreases volume - k,
    {
        proof {
            lemma_cell_bounds(lod, k as int);
        }
        let sx: usize = k % size;
        let sy: usize = (k / size) % size;
        let sz: usize = k / (size * size);
        let block_id: BlockId = grid.get(sx, sy, sz, Ghost(*chunk), Ghost(lod));
        if block_id == 0 {
            proof {
                lemma_lod_skip(*chunk, *neighbors, props, *uv_table, lod, k as int);
            }
        } else {
            let x: usize = sx * step;
            let y: usize = sy * step;
            let z: usize = sz * step;
            let mut f: usize = 0;
            while f < 6
                invariant
                    f <= 6,
                    k < volume <= 4096,
                    coarse(lod),
                    chunk.wf(),
                    neighbors.wf(),
                    uv_table.wf(),
                    step == lod.spec_step(),
                    grid.is_grid_of(*chunk, lod),
                    cell_at(k as int, lod.spec_size()) == (sx as int, sy as int, sz as int),
                    x == sx * step,
                    y == sy * step,
                    z == sz * step,
                    x <= 32 - step,
                    y <= 32 - step,
                    z <= 32 - step,
                    block_id != 0,
                    block_id == dominant(*chunk, x as int, y as int, z as int, step as int),
                    out.is_mesh_of(
                        lod_quads_upto(
                            *chunk,
                            *neighbors,
                            props,
                            *uv_table,
                            lod,
                            (k * 6 + f) as nat,
                        ),
                    ),
                decreases 6 - f,
            {
                let ghost n = k * 6 + f;
                let ghost quads = lod_quads_upto(
                    *chunk,
                    *neighbors,
                    props,
                    *uv_table,
                    lod,
                    n as nat,
                );
                proof {
                    lemma_lod_quads_len(*chunk, *neighbors, props, *uv_table, lod, n as nat);
                    assert(n as int / 6 == k && n as int % 6 == f);
                    assert(lod_face_at(n as int, lod) == (x as int, y as int, z as int, f as int));
                    assert(x as int % step as int == 0) by {
                        vstd::arithmetic::div_mod::lemma_mod_multiples_basic(
                            sx as int,
                            step as int,
                        );
                    }
                    assert(y as int % step as int == 0) by {
                        vstd::arithmetic::div_mod::lemma_mod_multiples_basic(
                            sy as int,
                            step as int,
                        );
                    }
                    assert(z as int % step as int == 0) by {
                        vstd::arithmetic::div_mod::lemma_mod_multiples_basic(
                            sz as int,
                            step as int,
                        );
                    }
                }
                let (face, offset, uv_idx) = faces(f);
                if is_face_visible_lod_fast(
                    x,
                    y,
                    z,
                    block_id,
                    offset,
                    f,
                    neighbors,
                    props,
                    lod,
                    &grid,
                    Ghost(*chunk),
                ) {
                    let uv: (T, T, T, T) = uv_table.get_uv(block_id, uv_idx);
                    let (verts, uvs, normal) = face_quad_lod(x, y, z, face, uv, step);
                    out.push_quad(
                        verts,
                        uvs,
                        normal,
                        Ghost(quads),
                        Ghost(lod_quad_at(*chunk, *uv_table, lod, n as int)),
                    );
                }
                f = f + 1;
            }
        }
        k = k + 1;
    }
    (out, None)
}

/// The first block in a row is there, and all before it is air.
proof fn lemma_first_in_row(c: ChunkData, x: int, y: int, z: int, step: int, dx: int) -> (a: int)
    ensures
        ({
            let id = first_in_row(c, x, y, z, step, dx);
            if id == 0 {
                forall|b: int| dx <= b < step ==> #[trigger] c.block_at(x + b, y, z) == 0
            } else {
                &&& dx <= a < step
                &&& c.block_at(x + a, y, z) == id
                &&& forall|b: int| dx <= b < a ==> #[trigger] c.block_at(x + b, y, z) == 0
            }
        }),
    decreases step - dx,
{
    if dx >= step || c.block_at(x + dx, y, z) != 0 {
        dx
    } else {
        lemma_first_in_row(c, x, y, z, step, dx + 1)
    }
}

/// The first block in a square is there, and all before it is air.
proof fn lemma_first_in_square(
    c: ChunkData,
    x: int,
    y: int,
    z: int,
    step: int,
    dz: int,
) -> (a: (int, int))
    ensures
        ({
            let id = first_in_square(c, x, y, z, step, dz);
            if id == 0 {
                forall|bx: int, bz: int|
                    0 <= bx < step && dz <= bz < step ==> #[trigger] c.block_at(x + bx, y, z + bz) == 0
            } else {
                &&& 0 <= a.0 < step
                &&& dz <= a.1 < step
                &&& c.block_at(x + a.0, y, z + a.1) == id
                &&& forall|bx: int, bz: int|
                    0 <= bx < step && dz <= bz < step && (bz < a.1 || (bz == a.1 && bx < a.0))
                        ==> #[trigger] c.block_at(x + bx, y, z + bz) == 0
            }
        }),
    decreases step - dz,
{
    if dz >= step {
        (0, dz)
    } else {
        let a = lemma_first_in_row(c, x, y, z + dz, step, 0);
        if first_in_row(c, x, y, z + dz, step, 0) != 0 {
            (a, dz)
        } else {
            lemma_first_in_square(c, x, y, z, step, dz + 1)
        }
    }
}

/// The first block of a cube from the top is there, and all before it is air.
proof fn lemma_first_from_top(
    c: ChunkData,
    x: int,
    y: int,
    z: int,
    step: int,
    dy: int,
) -> (a: (int, int, int))
    ensures
        ({
            let id = first_from_top(c, x, y, z, step, dy);
            if id == 0 {
                forall|bx: int, by: int, bz: int|
                    0 <= bx < step && 0 <= by < dy && 0 <= bz < step ==> #[trigger] c.block_at(
                        x + bx,
                        y + by,
                        z + bz,
                    ) == 0
            } else {
                &&& 0 <= a.0 < step
                &&& 0 <= a.1 < dy
                &&& 0 <= a.2 < step
                &&& c.block_at(x + a.0, y + a.1, z + a.2) == id
                &&& forall|bx: int, by: int, bz: int|
                    0 <= bx < step && 0 <= by < dy && 0 <= bz < step && (by > a.1 || (by == a.1 && (bz
                        < a.2 || (bz == a.2 && bx < a.0)))) ==> #[trigger] c.block_at(
                        x + bx,
                        y + by,
                        z + bz,
                    ) == 0
            }
        }),
    decreases dy,
{
    if dy <= 0 {
        (0, 0, 0)
    } else {
        let a = lemma_first_in_square(c, x, y + dy - 1, z, step, 0);
        assert(y + (dy - 1) == y + dy - 1);
        if first_in_square(c, x, y + dy - 1, z, step, 0) != 0 {
            (a.0, dy - 1, a.1)
        } else {
            lemma_first_from_top(c, x, y, z, step, dy - 1)
        }
    }
}

/// If the block that stands for a cube is air, the whole cube is air. If not, the cube
/// holds a block of that kind with nothing but air at greater heights, and of those at
/// its own height it comes first: all with smaller z are air, and all with equal z and
/// smaller x.
pub proof fn law_dominant_is_seen_from_above(c: ChunkData, x: int, y: int, z: int, step: int)
    requires
        step >= 0,
    ensures
        ({
            let id = dominant(c, x, y, z, step);
            &&& id == 0 ==> forall|bx: int, by: int, bz: int|
                x <= bx < x + step && y <= by < y + step && z <= bz < z + step
                    ==> #[trigger] c.block_at(bx, by, bz) == 0
            &&& id != 0 ==> exists|ax: int, ay: int, az: int|
                {
                    &&& x <= ax < x + step
                    &&& y <= ay < y + step
                    &&& z <= az < z + step
                    &&& #[trigger] c.block_at(ax, ay, az) == id
                    &&& forall|bx: int, by: int, bz: int|
                        x <= bx < x + step && y <= by < y + step && z <= bz < z + step && (by > ay || (
                        by == ay && (bz < az || (bz == az && bx < ax)))) ==> #[trigger] c.block_at(
                            bx,
                            by,
                            bz,
                        ) == 0
                }
        }),
{
    let id = dominant(c, x, y, z, step);
    let a = lemma_first_from_top(c, x, y, z, step, step);
    if id == 0 {
        assert forall|bx: int, by: int, bz: int|
            x <= bx < x + step && y <= by < y + step && z <= bz < z + step implies
            #[trigger] c.block_at(bx, by, bz) == 0 by {
            assert(c.block_at(x + (bx - x), y + (by - y), z + (bz - z)) == 0);
        }
    } else {
        let (ax, ay, az) = (x + a.0, y + a.1, z + a.2);
        assert forall|bx: int, by: int, bz: int|
            x <= bx < x + step && y <= by < y + step && z <= bz < z + step && (by > ay || (by == ay && (
            bz < az || (bz == az && bx < ax)))) implies #[trigger] c.block_at(bx, by, bz) == 0 by {
            assert(c.block_at(x + (bx - x), y + (by - y), z + (bz - z)) == 0);
        }
        assert(c.block_at(ax, ay, az) == id);
    }
}

/// The level of a number is meant for distances up to eight chunks more than the level
/// before, that is of less than `8 * k + 9` chunks.
pub proof fn law_levels_by_distance(dist_sq: int, k: int)
    requires
        0 <= k < 3,
    ensures
        LodLevel::spec_at(dist_sq).spec_rank() <= k <==> dist_sq < (8 * k + 9) * (8 * k + 9),
        0 <= LodLevel::spec_at(dist_sq).spec_rank() <= 3,
{
    assert(9 * 9 == 81 && 17 * 17 == 289 && 25 * 25 == 625);
    assert((8 * k + 9) * (8 * k + 9) == if k == 0 {
        81int
    } else if k == 1 {
        289
    } else {
        625
    }) by {
        if k == 0 {
            assert(8 * k + 9 == 9);
        } else if k == 1 {
            assert(8 * k + 9 == 17);
        } else {
            assert(8 * k + 9 == 25);
        }
    }
}

/// Each level draws twice as many blocks as one along each axis as the level before, and
/// has half as many cells; the finest draws each block.
pub proof fn law_steps_double(a: LodLevel, b: LodLevel)
    requires
        b.spec_rank() == a.spec_rank() + 1,
    ensures
        b.spec_step() == 2 * a.spec_step(),
        a.spec_size() == 2 * b.spec_size(),
        a.spec_rank() == 0 <==> a.spec_step() == 1,
        a.spec_rank() == 0 <==> a == LodLevel::Lod0,
{
}

/// A chunk takes a finer level as soon as it is near enough. It takes a coarser one only
/// if the distance is more than twelve chunks at the finest level, and more than eight
/// chunks more at each coarser one; and then it takes the level of its distance. So a
/// chunk that has just become coarser does not become finer again before it has come
/// nearer.
pub proof fn law_switching(current: LodLevel, dist_sq: int, nearer: int)
    ensures
        ({
            let k = current.spec_rank();
            let new = LodLevel::spec_at(dist_sq);
            &&& new.spec_rank() < k ==> switches(current, dist_sq)
            &&& new.spec_rank() == k ==> !switches(current, dist_sq)
            &&& new.spec_rank() > k ==> (switches(current, dist_sq) <==> dist_sq > (8 * k + 12) * (8 * k
                + 12))
            &&& switches(current, dist_sq) && new.spec_rank() > k && switches(new, nearer)
                && LodLevel::spec_at(nearer).spec_rank() <= k ==> nearer < dist_sq
        }),
{
    assert(12 * 12 == 144 && 20 * 20 == 400 && 28 * 28 == 784 && 36 * 36 == 1296);
    let k = current.spec_rank();
    assert(8 * k + 12 == current.spec_threshold() + 4);
}

/// After all chunks of a list have been looked at, a chunk of the list has the level of
/// its distance or the one it had, if it is not to switch, and all others have what they
/// had.
pub proof fn law_update_looks_at_each(
    lods: Map<ChunkCoord, LodLevel>,
    coords: Seq<ChunkCoord>,
    player: ChunkCoord,
    c: ChunkCoord,
)
    ensures
        ({
            let (old_level, new_level) = (lod_in(lods, c), lod_in(lods_after(lods, coords, player), c));
            let d = distance_sq(c, player);
            &&& !coords.contains(c) ==> new_level == old_level
            &&& coords.contains(c) ==> new_level == if switches(old_level, d) {
                LodLevel::spec_at(d)
            } else {
                old_level
            }
            &&& changes_after(lods, coords, player).contains((c, new_level)) <==> new_level != old_level
            &&& forall|l: LodLevel|
                changes_after(lods, coords, player).contains((c, l)) ==> l == new_level
        }),
    decreases coords.len(),
{
    let after = lods_after(lods, coords, player);
    let changes = changes_after(lods, coords, player);
    if coords.len() > 0 {
        let short = coords.drop_last();
        let last = coords.last();
        law_update_looks_at_each(lods, short, player, c);
        let before = lods_after(lods, short, player);
        let earlier = changes_after(lods, short, player);
        let d = distance_sq(last, player);
        assert(coords.contains(c) == (short.contains(c) || last == c)) by {
            if short.contains(c) {
                let k = choose|k: int| 0 <= k < short.len() && short[k] == c;
                assert(coords[k] == c);
            }
            if coords.contains(c) && last != c {
                let k = choose|k: int| 0 <= k < coords.len() && coords[k] == c;
                assert(short[k] == c);
            }
            assert(coords[coords.len() - 1] == last);
        }
        assert forall|l: LodLevel| changes.contains((c, l)) == (earlier.contains((c, l)) || (switches(
            lod_in(before, last),
            d,
        ) && last == c && l == LodLevel::spec_at(d))) by {
            if switches(lod_in(before, last), d) {
                assert(changes == earlier.push((last, LodLevel::spec_at(d))));
                if earlier.contains((c, l)) {
                    let k = choose|k: int| 0 <= k < earlier.len() && earlier[k] == (c, l);
                    assert(changes[k] == (c, l));
                }
                if changes.contains((c, l)) {
                    let k = choose|k: int| 0 <= k < changes.len() && changes[k] == (c, l);
                    if k < earlier.len() {
                        assert(earlier[k] == (c, l));
                    }
                }
                assert(changes[earlier.len() as int] == (last, LodLevel::spec_at(d)));
            }
        }
        if switches(lod_in(lods, c), distance_sq(c, player)) {
            law_switch_settles(lod_in(lods, c), distance_sq(c, player));
        }
    }
}

/// The cube across a face that lies in the chunk is one of the chunk. Else it lies in the
/// neighbour on that side, a whole chunk nearer to its first block.
pub proof fn law_lod_across(
    chunk: ChunkData,
    neighbors: ChunkNeighbors,
    lod: LodLevel,
    x: int,
    y: int,
    z: int,
    f: int,
)
    requires
        0 <= f < 6,
        0 <= x <= 32 - lod.spec_step(),
        0 <= y <= 32 - lod.spec_step(),
        0 <= z <= 32 - lod.spec_step(),
        x % lod.spec_step() == 0,
        y % lod.spec_step() == 0,
        z % lod.spec_step() == 0,
    ensures
        ({
            let step = lod.spec_step();
            let n = face::spec_face(f).spec_normal();
            let (a, b, c) = (x + n[0] * step, y + n[1] * step, z + n[2] * step);
            lod_across(chunk, neighbors, step, a, b, c, f) == if 0 <= a < 32 && 0 <= b < 32 && 0 <= c
                < 32 {
                dominant(chunk, a, b, c, step)
            } else {
                match neighbors.neighbor_data@[f] {
                    Some(data) => dominant(*data, a - 32 * n[0], b - 32 * n[1], c - 32 * n[2], step),
                    None => 0,
                }
            }
        }),
{
    let step = lod.spec_step();
    let n = face::spec_face(f).spec_normal();
    lemma_unit_times(n[0] as int, step);
    lemma_unit_times(n[1] as int, step);
    lemma_unit_times(n[2] as int, step);
    let (a, b, c) = (x + n[0] * step, y + n[1] * step, z + n[2] * step);
    match lod {
        LodLevel::Lod0 => {},
        LodLevel::Lod1 => {
            assert(a + 2 <= 32 <==> a < 32);
        },
        LodLevel::Lod2 => {
            assert(a + 4 <= 32 <==> a < 32);
        },
        LodLevel::Lod3 => {
            assert(a + 8 <= 32 <==> a < 32);
        },
    }
}

/// The cell of a block, and where the cell begins.
proof fn lemma_cell_of_block(lod: LodLevel, v: int)
    requires
        coarse(lod),
        0 <= v < 32,
    ensures
        ({
            let (size, step) = (lod.spec_size(), lod.spec_step());
            &&& 0 <= v / step < size
            &&& (v / step) * step == v - v % step
            &&& 0 <= v % step < step
        }),
{
    match lod {
        LodLevel::Lod1 => {
            assert((v / 2) * 2 == v - v % 2);
        },
        LodLevel::Lod2 => {
            assert((v / 4) * 4 == v - v % 4);
        },
        _ => {
            assert((v / 8) * 8 == v - v % 8);
        },
    }
}

/// A block lies in the cell that begins at a multiple of the step if that is where its
/// own cell begins.
proof fn lemma_in_cell(lod: LodLevel, v: int, s: int)
    requires
        coarse(lod),
        0 <= v < 32,
    ensures
        s * lod.spec_step() <= v < s * lod.spec_step() + lod.spec_step() <==> s == v
            / lod.spec_step(),
{
    match lod {
        LodLevel::Lod1 => {
            assert(s * 2 <= v < s * 2 + 2 <==> s == v / 2);
        },
        LodLevel::Lod2 => {
            assert(s * 4 <= v < s * 4 + 4 <==> s == v / 4);
        },
        _ => {
            assert(s * 8 <= v < s * 8 + 8 <==> s == v / 8);
        },
    }
}

/// The number of the cell of a block.
spec fn number_of_block(lod: LodLevel, x: int, y: int, z: int) -> int {
    let step = lod.spec_step();
    cell_number(x / step, y / step, z / step, lod.spec_size())
}

/// The quad of a face covers a face of a block if it is that of its cell.
proof fn lemma_lod_quad_covers<T: Copy>(
    chunk: ChunkData,
    uv_table: UvLookupTable<T>,
    lod: LodLevel,
    n: int,
    x: int,
    y: int,
    z: int,
    f: int,
)
    requires
        coarse(lod),
        0 <= n < lod.spec_size() * lod.spec_size() * lod.spec_size() * 6,
        0 <= x < 32,
        0 <= y < 32,
        0 <= z < 32,
        0 <= f < 6,
    ensures
        mesh::covers(lod_quad_at(chunk, uv_table, lod, n), face::spec_face(f), x, y, z) <==> n
            == number_of_block(lod, x, y, z) * 6 + f,
{
    let (size, step) = (lod.spec_size(), lod.spec_step());
    let volume = size * size * size;
    assert(0 <= n / 6 < volume) by {
        assert(n < volume * 6);
    }
    lemma_cell_bounds(lod, n / 6);
    lemma_cell_of_block(lod, x);
    lemma_cell_of_block(lod, y);
    lemma_cell_of_block(lod, z);
    lemma_cell(lod, x / step, y / step, z / step);
    let (sx, sy, sz) = cell_at(n / 6, size);
    lemma_in_cell(lod, x, sx);
    lemma_in_cell(lod, y, sy);
    lemma_in_cell(lod, z, sz);
    if face::spec_face(n % 6) == face::spec_face(f) {
        face::law_faces_differ(n % 6, f);
    }
    assert(n == 6 * (n / 6) + n % 6);
}

/// Among the quads of the first `n` faces one covers a face of a block if the face of its
/// cell is one of them and to be drawn, and only that one.
proof fn lemma_lod_quads_cover<T: Copy>(
    chunk: ChunkData,
    neighbors: ChunkNeighbors,
    props: Option<&BlockPropertiesTable>,
    uv_table: UvLookupTable<T>,
    lod: LodLevel,
    n: nat,
    x: int,
    y: int,
    z: int,
    f: int,
)
    requires
        coarse(lod),
        n <= lod.spec_size() * lod.spec_size() * lod.spec_size() * 6,
        0 <= x < 32,
        0 <= y < 32,
        0 <= z < 32,
        0 <= f < 6,
    ensures
        ({
            let quads = lod_quads_upto(chunk, neighbors, props, uv_table, lod, n);
            let face = face::spec_face(f);
            let m = number_of_block(lod, x, y, z) * 6 + f;
            &&& (exists|i: int|
                0 <= i < quads.len() && mesh::covers(#[trigger] quads[i], face, x, y, z)) <==> m < n
                && lod_shown(chunk, neighbors, props, lod, m)
            &&& forall|i: int|
                0 <= i < quads.len() && mesh::covers(#[trigger] quads[i], face, x, y, z) ==> quads[i]
                    == lod_quad_at(chunk, uv_table, lod, m)
            &&& forall|i: int, j: int|
                0 <= i < quads.len() && 0 <= j < quads.len() && mesh::covers(
                    #[trigger] quads[i],
                    face,
                    x,
                    y,
                    z,
                ) && mesh::covers(#[trigger] quads[j], face, x, y, z) ==> i == j
        }),
    decreases n,
{
    let step = lod.spec_step();
    lemma_cell_of_block(lod, x);
    lemma_cell_of_block(lod, y);
    lemma_cell_of_block(lod, z);
    lemma_cell(lod, x / step, y / step, z / step);
    if n > 0 {
        lemma_lod_quads_cover(
            chunk,
            neighbors,
            props,
            uv_table,
            lod,
            (n - 1) as nat,
            x,
            y,
            z,
            f,
        );
        let rest = lod_quads_upto(chunk, neighbors, props, uv_table, lod, (n - 1) as nat);
        let quads = lod_quads_upto(chunk, neighbors, props, uv_table, lod, n);
        let face = face::spec_face(f);
        let m = number_of_block(lod, x, y, z) * 6 + f;
        let q = lod_quad_at(chunk, uv_table, lod, n - 1);
        lemma_lod_quad_covers(chunk, uv_table, lod, n - 1, x, y, z, f);
        if lod_shown(chunk, neighbors, props, lod, n - 1) {
            assert(quads == rest.push(q));
            assert forall|i: int| 0 <= i < rest.len() implies #[trigger] quads[i] == rest[i] by {}
            assert(quads[rest.len() as int] == q);
            if m == n - 1 {
                assert(mesh::covers(quads[rest.len() as int], face, x, y, z));
            } else if m < n && lod_shown(chunk, neighbors, props, lod, m) {
                let i = choose|i: int|
                    0 <= i < rest.len() && mesh::covers(#[trigger] rest[i], face, x, y, z);
                assert(mesh::covers(quads[i], face, x, y, z));
            }
            assert forall|i: int|
                0 <= i < quads.len() && mesh::covers(#[trigger] quads[i], face, x, y, z) implies i
                == rest.len() || mesh::covers(rest[i], face, x, y, z) by {}
        }
    }
}

/// The mesh of a chunk at a coarse level shows just what can be seen of its cubes. A quad
/// reaches over face `f` of a block if and only if the cube that the block lies in does
/// not stand for air, and the cube across stands for another kind of block that is not
/// solid; then it is one quad alone, the size of the cube, and has the texture of the
/// block that stands for the cube.
pub proof fn law_lod_mesh_shows_what_is_seen<T: Copy>(
    chunk: ChunkData,
    neighbors: ChunkNeighbors,
    props: Option<&BlockPropertiesTable>,
    uv_table: UvLookupTable<T>,
    lod: LodLevel,
    x: int,
    y: int,
    z: int,
    f: int,
)
    requires
        lod != LodLevel::Lod0,
        0 <= x < 32,
        0 <= y < 32,
        0 <= z < 32,
        0 <= f < 6,
    ensures
        ({
            let quads = lod_quads(chunk, neighbors, props, uv_table, lod);
            let face = face::spec_face(f);
            let n = face.spec_normal();
            let step = lod.spec_step();
            let (a, b, c) = (x - x % step, y - y % step, z - z % step);
            let id = dominant(chunk, a, b, c, step);
            let other = lod_across(
                chunk,
                neighbors,
                step,
                a + n[0] * step,
                b + n[1] * step,
                c + n[2] * step,
                f,
            );
            &&& (exists|i: int|
                0 <= i < quads.len() && mesh::covers(#[trigger] quads[i], face, x, y, z)) <==> id != 0
                && other != id && !block_definition::solid_in(props, other)
            &&& forall|i: int|
                0 <= i < quads.len() && mesh::covers(#[trigger] quads[i], face, x, y, z) ==> {
                    &&& quads[i].origin == (a, b, c)
                    &&& quads[i].extent == (step, step, step)
                    &&& quads[i].uv == uv_table.uv(id as int, face.spec_face_index())
                }
            &&& forall|i: int, j: int|
                0 <= i < quads.len() && 0 <= j < quads.len() && mesh::covers(
                    #[trigger] quads[i],
                    face,
                    x,
                    y,
                    z,
                ) && mesh::covers(#[trigger] quads[j], face, x, y, z) ==> i == j
        }),
{
    let (size, step) = (lod.spec_size(), lod.spec_step());
    let (a, b, c) = (x - x % step, y - y % step, z - z % step);
    let volume = size * size * size;
    lemma_cell_of_block(lod, x);
    lemma_cell_of_block(lod, y);
    lemma_cell_of_block(lod, z);
    lemma_cell(lod, x / step, y / step, z / step);
    lemma_lod_quads_cover(
        chunk,
        neighbors,
        props,
        uv_table,
        lod,
        (volume * 6) as nat,
        x,
        y,
        z,
        f,
    );
    let m = number_of_block(lod, x, y, z) * 6 + f;
    assert(m / 6 == number_of_block(lod, x, y, z) && m % 6 == f);
    assert(lod_face_at(m, lod) == (a, b, c, f));
    if chunk is Empty || chunk == ChunkData::Uniform(0) {
        let seen = lemma_first_from_top(chunk, a, b, c, step, step);
        let d = dominant(chunk, a, b, c, step);
        if d != 0 {
            assert(chunk.block_at(a + seen.0, b + seen.1, c + seen.2) == d);
        }
    }
}

/// Every quad of the mesh of a chunk at a coarse level is a face of one of its cubes, and
/// lies in the chunk.
pub proof fn law_lod_mesh_stays_in_chunk<T: Copy>(
    chunk: ChunkData,
    neighbors: ChunkNeighbors,
    props: Option<&BlockPropertiesTable>,
    uv_table: UvLookupTable<T>,
    lod: LodLevel,
    i: int,
)
    requires
        0 <= i < lod_quads(chunk, neighbors, props, uv_table, lod).len(),
    ensures
        ({
            let q = lod_quads(chunk, neighbors, props, uv_table, lod)[i];
            exists|x: int, y: int, z: int|
                0 <= x < 32 && 0 <= y < 32 && 0 <= z < 32 && #[trigger] mesh::covers(
                    q,
                    q.face,
                    x,
                    y,
                    z,
                )
        }),
{
    let size = lod.spec_size();
    lemma_lod_quads_stay(
        chunk,
        neighbors,
        props,
        uv_table,
        lod,
        (size * size * size * 6) as nat,
        i,
    );
}

/// Every quad of the first `n` faces is a face of a cube of the chunk.
proof fn lemma_lod_quads_stay<T: Copy>(
    chunk: ChunkData,
    neighbors: ChunkNeighbors,
    props: Option<&BlockPropertiesTable>,
    uv_table: UvLookupTable<T>,
    lod: LodLevel,
    n: nat,
    i: int,
)
    requires
        coarse(lod),
        n <= lod.spec_size() * lod.spec_size() * lod.spec_size() * 6,
        0 <= i < lod_quads_upto(chunk, neighbors, props, uv_table, lod, n).len(),
    ensures
        ({
            let q = lod_quads_upto(chunk, neighbors, props, uv_table, lod, n)[i];
            exists|x: int, y: int, z: int|
                0 <= x < 32 && 0 <= y < 32 && 0 <= z < 32 && #[trigger] mesh::covers(
                    q,
                    q.face,
                    x,
                    y,
                    z,
                )
        }),
    decreases n,
{
    if n > 0 {
        let rest = lod_quads_upto(chunk, neighbors, props, uv_table, lod, (n - 1) as nat);
        if i < rest.len() {
            lemma_lod_quads_stay(chunk, neighbors, props, uv_table, lod, (n - 1) as nat, i);
        } else {
            let volume = lod.spec_size() * lod.spec_size() * lod.spec_size();
            assert(0 <= (n - 1) / 6 < volume) by {
                assert(n - 1 < volume * 6);
            }
            lemma_cell_bounds(lod, (n - 1) / 6);
            let q = lod_quad_at(chunk, uv_table, lod, n - 1);
            let (x, y, z, f) = lod_face_at(n - 1, lod);
            assert(mesh::covers(q, q.face, x, y, z));
        }
    }
}

} // verus!
