//! Where the octree learns which regions hold voxels.

use crate::chunk;
use crate::chunk::is_air_chunk;
use crate::chunk_manager::LoadedChunks;
use crate::types::ChunkCoord;
use vstd::arithmetic::power2::*;
use vstd::prelude::*;

verus! {

/// Every section of the region at level `lvl` and coordinate `v` has a 32-bit
/// coordinate along this axis.
pub open spec fn axis_fits(lvl: int, v: int) -> bool {
    &&& lvl >= 0
    &&& i32::MIN <= v * pow2(lvl as nat)
    &&& (v + 1) * pow2(lvl as nat) - 1 <= i32::MAX
}

/// Every section of a region has 32-bit coordinates.
pub open spec fn region_fits(lvl: int, x: int, y: int, z: int) -> bool {
    axis_fits(lvl, x) && axis_fits(lvl, y) && axis_fits(lvl, z)
}

/// Answers whether a region holds anything but air.
///
/// A region is a cube of sections: level 0 is one section, and each further
/// level doubles the edge. The coordinates count regions of that level.
pub trait VoxelSource {
    /// The source can be asked.
    spec fn valid(&self) -> bool;

    /// Whether the region holds anything but air.
    spec fn has_content(&self, lvl: int, x: int, y: int, z: int) -> bool;

    /// Whether the region holds anything but air.
    fn region_has_content(&self, lvl: u32, x: i32, y: i32, z: i32) -> (r: bool)
        requires
            self.valid(),
            region_fits(lvl as int, x as int, y as int, z as int),
        ensures
            r == self.has_content(lvl as int, x as int, y as int, z as int),
    ;
}

/// A coordinate lies in the region of level `lvl` at `v` along an axis.
pub open spec fn axis_covers(lvl: int, v: int, c: int) -> bool {
    v * pow2(lvl as nat) <= c < (v + 1) * pow2(lvl as nat)
}

/// A chunk lies in a region.
pub open spec fn region_covers(lvl: int, x: int, y: int, z: int, c: ChunkCoord) -> bool {
    axis_covers(lvl, x, c.cx as int) && axis_covers(lvl, y, c.cy as int) && axis_covers(
        lvl,
        z,
        c.cz as int,
    )
}

/// A chunk is loaded and holds more than air.
pub open spec fn filled_chunk(loaded: LoadedChunks, c: ChunkCoord) -> bool {
    loaded.entries@.contains_key(c) && !chunk::all_air(*loaded.entries@[c].data)
}

/// The loaded chunks as a source: a section is a chunk.
pub struct ChunkVoxelSource<'a> {
    pub loaded: &'a LoadedChunks,
}

/// The half of a region in which a coordinate lies.
proof fn lemma_axis_halves(lvl: int, v: int, c: int)
    requires
        lvl >= 1,
    ensures
        axis_covers(lvl, v, c) <==> axis_covers(lvl - 1, v * 2, c) || axis_covers(
            lvl - 1,
            v * 2 + 1,
            c,
        ),
        axis_fits(lvl, v) ==> axis_fits(lvl - 1, v * 2) && axis_fits(lvl - 1, v * 2 + 1),
{
    lemma_pow2_unfold(lvl as nat);
    lemma_pow2_pos((lvl - 1) as nat);
    let p = pow2((lvl - 1) as nat) as int;
    assert(v * (2 * p) == (v * 2) * p) by (nonlinear_arith);
    assert((v + 1) * (2 * p) == (v * 2 + 2) * p) by (nonlinear_arith);
    assert((v * 2 + 1) * p == (v * 2) * p + p) by (nonlinear_arith);
    assert((v * 2 + 2) * p == (v * 2) * p + 2 * p) by (nonlinear_arith);
    assert(((v * 2) + 1) + 1 == v * 2 + 2);
}

/// A region that can be asked for has 32-bit coordinates, and so do its halves.
proof fn lemma_axis_bounds(lvl: int, v: int)
    requires
        axis_fits(lvl, v),
        lvl >= 1,
    ensures
        i32::MIN <= v * 2,
        v * 2 + 1 <= i32::MAX,
{
    lemma_pow2_unfold(lvl as nat);
    lemma_pow2_pos((lvl - 1) as nat);
    let p = pow2((lvl - 1) as nat) as int;
    assert(v * (2 * p) == (v * 2) * p) by (nonlinear_arith);
    assert((v + 1) * (2 * p) == (v * 2 + 2) * p) by (nonlinear_arith);
    assert(i32::MIN <= v * 2 && v * 2 + 1 <= i32::MAX) by (nonlinear_arith)
        requires
            p >= 1,
            i32::MIN <= (v * 2) * p,
            (v * 2 + 2) * p - 1 <= i32::MAX,
    ;
}

impl<'a> ChunkVoxelSource<'a> {
    /// Some chunk of the region is loaded and holds more than air.
    pub open spec fn any_in(&self, lvl: int, x: int, y: int, z: int) -> bool {
        exists|c: ChunkCoord| #[trigger]
            filled_chunk(*self.loaded, c) && region_covers(lvl, x, y, z, c)
    }

    /// Looks at the octants of a region, down to single chunks.
    fn search(&self, lvl: u32, x: i32, y: i32, z: i32) -> (r: bool)
        requires
            self.loaded.wf(),
            region_fits(lvl as int, x as int, y as int, z as int),
        ensures
            r == self.any_in(lvl as int, x as int, y as int, z as int),
        decreases lvl,
    {
        if lvl == 0 {
            let coord: ChunkCoord = ChunkCoord { cx: x, cy: y, cz: z };
            proof {
                lemma2_to64();
                assert forall|c: ChunkCoord| region_covers(
                    0,
                    x as int,
                    y as int,
                    z as int,
                    c,
                ) == (c == coord) by {}
            }
            return match self.loaded.entries.get(&coord) {
                Some(entry) => {
                    let air: bool = is_air_chunk(&entry.data);
                    assert(filled_chunk(*self.loaded, coord) == !air);
                    !air
                },
                None => {
                    assert(!filled_chunk(*self.loaded, coord));
                    false
                },
            };
        }
        proof {
            lemma_axis_bounds(lvl as int, x as int);
            lemma_axis_bounds(lvl as int, y as int);
            lemma_axis_bounds(lvl as int, z as int);
            lemma_axis_halves(lvl as int, x as int, 0);
            lemma_axis_halves(lvl as int, y as int, 0);
            lemma_axis_halves(lvl as int, z as int, 0);
        }
        let mut i: u32 = 0;
        while i < 8
            invariant
                i <= 8,
                lvl >= 1,
                self.loaded.wf(),
                i32::MIN <= x * 2,
                x * 2 + 1 <= i32::MAX,
                i32::MIN <= y * 2,
                y * 2 + 1 <= i32::MAX,
                i32::MIN <= z * 2,
                z * 2 + 1 <= i32::MAX,
                axis_fits(lvl - 1, x * 2),
                axis_fits(lvl - 1, x * 2 + 1),
                axis_fits(lvl - 1, y * 2),
                axis_fits(lvl - 1, y * 2 + 1),
                axis_fits(lvl - 1, z * 2),
                axis_fits(lvl - 1, z * 2 + 1),
                forall|k: int|
                    0 <= k < i ==> !#[trigger] self.any_in_octant(
                        lvl as int,
                        x as int,
                        y as int,
                        z as int,
                        k,
                    ),
            decreases 8 - i,
        {
            let ox: i32 = (i / 4) as i32;
            let oy: i32 = ((i / 2) % 2) as i32;
            let oz: i32 = (i % 2) as i32;
            let found: bool = self.search(lvl - 1, x * 2 + ox, y * 2 + oy, z * 2 + oz);
            assert(found == self.any_in_octant(
                lvl as int,
                x as int,
                y as int,
                z as int,
                i as int,
            ));
            if found {
                proof {
                    self.lemma_octants(lvl as int, x as int, y as int, z as int);
                }
                return true;
            }
            i = i + 1;
        }
        proof {
            self.lemma_octants(lvl as int, x as int, y as int, z as int);
        }
        false
    }

    /// Some chunk of octant `k` of a region is loaded and holds more than air.
    closed spec fn any_in_octant(&self, lvl: int, x: int, y: int, z: int, k: int) -> bool {
        self.any_in(lvl - 1, x * 2 + k / 4, y * 2 + (k / 2) % 2, z * 2 + k % 2)
    }

    /// A region has content if one of its octants has.
    proof fn lemma_octants(&self, lvl: int, x: int, y: int, z: int)
        requires
            lvl >= 1,
        ensures
            self.any_in(lvl, x, y, z) <==> exists|k: int|
                0 <= k < 8 && #[trigger] self.any_in_octant(lvl, x, y, z, k),
    {
        if self.any_in(lvl, x, y, z) {
            let c = choose|c: ChunkCoord| #[trigger]
                filled_chunk(*self.loaded, c) && region_covers(lvl, x, y, z, c);
            lemma_axis_halves(lvl, x, c.cx as int);
            lemma_axis_halves(lvl, y, c.cy as int);
            lemma_axis_halves(lvl, z, c.cz as int);
            let ox: int = if axis_covers(lvl - 1, x * 2, c.cx as int) {
                0
            } else {
                1
            };
            let oy: int = if axis_covers(lvl - 1, y * 2, c.cy as int) {
                0
            } else {
                1
            };
            let oz: int = if axis_covers(lvl - 1, z * 2, c.cz as int) {
                0
            } else {
                1
            };
            let k = ox * 4 + oy * 2 + oz;
            assert(k / 4 == ox && (k / 2) % 2 == oy && k % 2 == oz);
            assert(filled_chunk(*self.loaded, c) && region_covers(
                lvl - 1,
                x * 2 + k / 4,
                y * 2 + (k / 2) % 2,
                z * 2 + k % 2,
                c,
            ));
            assert(self.any_in_octant(lvl, x, y, z, k));
        }
        if exists|k: int| 0 <= k < 8 && #[trigger] self.any_in_octant(lvl, x, y, z, k) {
            let k = choose|k: int| 0 <= k < 8 && #[trigger] self.any_in_octant(lvl, x, y, z, k);
            let c = choose|c: ChunkCoord| #[trigger]
                filled_chunk(*self.loaded, c) && region_covers(
                    lvl - 1,
                    x * 2 + k / 4,
                    y * 2 + (k / 2) % 2,
                    z * 2 + k % 2,
                    c,
                );
            lemma_axis_halves(lvl, x, c.cx as int);
            lemma_axis_halves(lvl, y, c.cy as int);
            lemma_axis_halves(lvl, z, c.cz as int);
            assert(filled_chunk(*self.loaded, c) && region_covers(lvl, x, y, z, c));
        }
    }
}

impl<'a> VoxelSource for ChunkVoxelSource<'a> {
    open spec fn valid(&self) -> bool {
        self.loaded.wf()
    }

    open spec fn has_content(&self, lvl: int, x: int, y: int, z: int) -> bool {
        self.any_in(lvl, x, y, z)
    }

    fn region_has_content(&self, lvl: u32, x: i32, y: i32, z: i32) -> (r: bool) {
        self.search(lvl, x, y, z)
    }
}

/// What is in a part of a region is in the region: where an octant has content,
/// so has the whole.
pub proof fn law_content_is_inherited(source: &ChunkVoxelSource, lvl: int, x: int, y: int, z: int, k: int)
    requires
        lvl >= 1,
        0 <= k < 8,
        source.has_content(lvl - 1, x * 2 + k / 4, y * 2 + (k / 2) % 2, z * 2 + k % 2),
    ensures
        source.has_content(lvl, x, y, z),
{
    source.lemma_octants(lvl, x, y, z);
    assert(source.any_in_octant(lvl, x, y, z, k));
}

/// A region of the lowest level has content exactly if the chunk with its coordinates is
/// loaded and holds a block other than air.
pub proof fn law_content_of_a_chunk(source: &ChunkVoxelSource, c: ChunkCoord)
    ensures
        source.has_content(0, c.cx as int, c.cy as int, c.cz as int) <==> (
        source.loaded.entries@.contains_key(c) && exists|i: int|
            0 <= i < 32 * 32 * 32 && #[trigger] source.loaded.entries@[c].data@[i] != 0),
{
    assert forall|d: ChunkCoord| #[trigger]
        region_covers(0, c.cx as int, c.cy as int, c.cz as int, d) <==> d == c by {
        lemma_lowest_axis(c.cx as int, d.cx as int);
        lemma_lowest_axis(c.cy as int, d.cy as int);
        lemma_lowest_axis(c.cz as int, d.cz as int);
    }
    if filled_chunk(*source.loaded, c) {
        assert(region_covers(0, c.cx as int, c.cy as int, c.cz as int, c));
    }
}

/// A region of the lowest level has one coordinate along an axis.
proof fn lemma_lowest_axis(v: int, c: int)
    ensures
        axis_covers(0, v, c) <==> c == v,
{
    lemma2_to64();
    let p = pow2(0) as int;
    assert(v * p == v && (v + 1) * p == v + 1) by (nonlinear_arith)
        requires
            p == 1,
    ;
}

/// A region has content exactly if one of its eight halves along the three axes has.
pub proof fn law_content_is_in_a_part(
    source: &ChunkVoxelSource,
    lvl: int,
    x: int,
    y: int,
    z: int,
) -> (r: (int, int, int))
    requires
        lvl >= 1,
    ensures
        0 <= r.0 <= 1 && 0 <= r.1 <= 1 && 0 <= r.2 <= 1,
        source.has_content(lvl, x, y, z) <==> source.has_content(
            lvl - 1,
            2 * x + r.0,
            2 * y + r.1,
            2 * z + r.2,
        ),
{
    source.lemma_octants(lvl, x, y, z);
    if source.has_content(lvl, x, y, z) {
        let k = choose|k: int| 0 <= k < 8 && #[trigger] source.any_in_octant(lvl, x, y, z, k);
        (k / 4, (k / 2) % 2, k % 2)
    } else {
        assert(!source.any_in_octant(lvl, x, y, z, 0));
        (0, 0, 0)
    }
}

} // verus!
