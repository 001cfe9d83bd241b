//! Fills sections with terrain.

use crate::biome;
use crate::biome::BiomeType;
use crate::svo::config::SECTION_VOLUME;
use crate::svo::section;
use crate::svo::section::{Section, SectionCoord, Voxel};
use vstd::prelude::*;

verus! {

/// The heights that bound the terrain.
#[derive(Debug, Clone, Copy)]
pub struct TerrainLimits {
    pub min_y: i32,
    pub max_y: i32,
    pub sea_level: i32,
}

/// What the noise says of a column of the world.
#[derive(Debug, Clone, Copy)]
pub struct TerrainColumn {
    pub surface_height: i32,
    pub biome: BiomeType,
}

/// The voxel that the terrain has at a height of a column: ground up to the
/// surface, and water above it up to the sea level; nothing else.
pub open spec fn terrain_voxel(
    column: TerrainColumn,
    limits: TerrainLimits,
    world_y: int,
) -> Option<Voxel> {
    let surface = column.surface_height;
    if world_y > limits.max_y || world_y < limits.min_y {
        None
    } else if world_y > surface {
        if world_y <= limits.sea_level && surface < limits.sea_level {
            Some(5)
        } else {
            None
        }
    } else if world_y == surface {
        Some(column.biome.spec_surface_block(world_y, limits.sea_level as int) as u16)
    } else {
        Some(column.biome.spec_subsurface_block(surface - world_y) as u16)
    }
}

/// The voxel with index `i` after a section has been filled.
pub open spec fn filled_voxel(
    before: Seq<Voxel>,
    coord: SectionCoord,
    columns: Seq<TerrainColumn>,
    limits: TerrainLimits,
    i: int,
) -> Voxel {
    match terrain_voxel(columns[i / 32], limits, coord.y * 32 + i % 32) {
        Some(v) => v,
        None => before[i],
    }
}

/// Fills a section with terrain. There is one column for each x and z, in the
/// order of z and then x. Where the terrain has nothing, the voxels stay.
pub fn fill_section_terrain(
    target: &mut Section,
    coord: &SectionCoord,
    columns: &Vec<TerrainColumn>,
    limits: TerrainLimits,
)
    requires
        old(target).wf(),
        columns@.len() == 1024,
        -67108864 <= coord.y <= 67108863,
        limits.sea_level >= i32::MIN + 8,
        forall|i: int|
            0 <= i < 1024 ==> (#[trigger] columns@[i]).surface_height - limits.min_y <= i32::MAX,
    ensures
        final(target).wf(),
        final(target).octants_known(),
        final(target).voxels@ == Seq::new(
            SECTION_VOLUME as nat,
            |i: int| filled_voxel(old(target).voxels@, *coord, columns@, limits, i),
        ),
        final(target).is_dirty == (old(target).is_dirty || final(target).voxels@ != old(
            target,
        ).voxels@),
        final(target).coord == old(target).coord,
        final(target).ref_count == old(target).ref_count,
{
    let ghost before = target.voxels@;
    let mut n: u32 = 0;
    while n < 32768
        invariant
            n <= 32768,
            target.wf(),
            before == old(target).voxels@,
            before.len() == SECTION_VOLUME,
            columns@.len() == 1024,
            -67108864 <= coord.y <= 67108863,
            limits.sea_level >= i32::MIN + 8,
            forall|i: int|
                0 <= i < 1024 ==> (#[trigger] columns@[i]).surface_height - limits.min_y
                    <= i32::MAX,
            forall|i: int|
                0 <= i < n ==> #[trigger] target.voxels@[i] == filled_voxel(
                    before,
                    *coord,
                    columns@,
                    limits,
                    i,
                ),
            forall|i: int| n <= i < SECTION_VOLUME ==> #[trigger] target.voxels@[i] == before[i],
            target.is_dirty == (old(target).is_dirty || differs(target.voxels@, before)),
            target.coord == old(target).coord,
            target.ref_count == old(target).ref_count,
        decreases 32768 - n,
    {
        let y: u32 = n % 32;
        let x: u32 = (n / 32) % 32;
        let z: u32 = n / 1024;
        let world_y: i32 = coord.y * 32 + y as i32;
        let column: TerrainColumn = columns[(n / 32) as usize];
        let surface: i32 = column.surface_height;
        let mut value: Option<Voxel> = None;
        if !(world_y > limits.max_y || world_y < limits.min_y) {
            if world_y > surface {
                if world_y <= limits.sea_level && surface < limits.sea_level {
                    value = Some(5);
                }
            } else {
                let depth: i32 = surface - world_y;
                if depth == 0 {
                    value = Some(column.biome.surface_block(world_y, limits.sea_level) as u16);
                } else {
                    value = Some(column.biome.subsurface_block(depth) as u16);
                }
            }
        }
        let ghost mid = target.voxels@;
        assert(section::voxel_index(x as int, y as int, z as int) == n);
        match value {
            Some(v) => {
                target.set_voxel(x, y, z, v);
                proof {
                    assert(target.voxels@ == mid.update(n as int, v));
                    if v != before[n as int] {
                        assert(target.voxels@[n as int] != before[n as int]);
                        assert(differs(target.voxels@, before));
                    } else {
                        assert(mid.update(n as int, v) =~= mid);
                    }
                    if differs(mid, before) {
                        let i = choose|i: int|
                            0 <= i < mid.len() && #[trigger] mid[i] != before[i];
                        assert(target.voxels@[i] != before[i]);
                    }
                    if differs(target.voxels@, before) && v == before[n as int] {
                        assert(differs(mid, before));
                    }
                }
            },
            None => {},
        }
        n = n + 1;
    }
    let ghost filled = target.voxels@;
    proof {
        assert(filled =~= Seq::new(
            SECTION_VOLUME as nat,
            |i: int| filled_voxel(before, *coord, columns@, limits, i),
        ));
        if differs(filled, before) {
            let i = choose|i: int| 0 <= i < filled.len() && #[trigger] filled[i] != before[i];
            assert(filled != before);
        } else {
            assert(filled =~= before);
        }
    }
    target.recalc_metadata();
}

/// Some voxel is another.
spec fn differs(a: Seq<Voxel>, b: Seq<Voxel>) -> bool {
    exists|i: int| 0 <= i < a.len() && #[trigger] a[i] != b[i]
}

/// In a column there is ground from the lowest height up to the surface, and it is neither air
/// nor water; at the surface it is what the biome has at the surface, and below it what the
/// biome has at that depth. Above the surface there is water up to the sea level and nothing
/// else, and outside the limits there is nothing.
pub proof fn law_ground_water_and_air(column: TerrainColumn, limits: TerrainLimits, y: int)
    ensures
        ({
            let t = terrain_voxel(column, limits, y);
            let inside = limits.min_y <= y <= limits.max_y;
            &&& !inside ==> t is None
            &&& inside && y <= column.surface_height ==> t is Some && t != Some(0u16) && t != Some(
                5u16,
            )
            &&& inside && y > column.surface_height ==> (t == Some(5u16) <==> y <= limits.sea_level)
            &&& inside && y > column.surface_height && y > limits.sea_level ==> t is None
            &&& inside && y == column.surface_height ==> t == Some(
                column.biome.spec_surface_block(y, limits.sea_level as int) as u16,
            )
            &&& inside && y < column.surface_height ==> t == Some(
                column.biome.spec_subsurface_block(column.surface_height - y) as u16,
            )
        }),
{
    biome::law_ground_is_solid(
        column.biome,
        y,
        limits.sea_level as int,
        column.surface_height - y,
    );
}

/// The terrain stands where its columns say: the voxel at a place of a filled section is what
/// the column of its x and z has at its height in the world, and what was there before where
/// the column has nothing.
pub proof fn law_columns_stand_in_their_places(
    before: Seq<Voxel>,
    after: Seq<Voxel>,
    coord: SectionCoord,
    columns: Seq<TerrainColumn>,
    limits: TerrainLimits,
    x: int,
    y: int,
    z: int,
)
    requires
        after == Seq::new(
            SECTION_VOLUME as nat,
            |i: int| filled_voxel(before, coord, columns, limits, i),
        ),
        0 <= x < 32,
        0 <= y < 32,
        0 <= z < 32,
    ensures
        section::voxel_at(after, x, y, z) == match terrain_voxel(
            columns[z * 32 + x],
            limits,
            32 * coord.y + y,
        ) {
            Some(v) => v,
            None => section::voxel_at(before, x, y, z),
        },
{
    let i = section::voxel_index(x, y, z);
    assert(i / 32 == z * 32 + x && i % 32 == y);
}

} // verus!
