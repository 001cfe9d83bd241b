//! Biomes: what grows where, by height, temperature and vegetation.

use crate::types::{BlockId, DIRT, GRASS, SAND, STONE};
use vstd::prelude::*;

verus! {

/// Trunk of a tree.
pub const TREE_TRUNK: BlockId = 6;

/// Leaves of a tree.
pub const TREE_LEAVES: BlockId = 7;

/// Sandstone, under deserts.
pub const SANDSTONE: BlockId = 8;

/// Snowy grass, in cold biomes.
pub const SNOW_GRASS: BlockId = 9;

/// Gravel, in river beds and at the foot of mountains.
pub const GRAVEL: BlockId = 10;

/// Bare rock of mountains.
pub const ROCK: BlockId = 11;

/// Mud of river banks.
pub const MUD: BlockId = 12;

/// What the continents make of a place.
#[derive(Debug, Clone, Copy, PartialEq, Eq, Hash, Structural)]
pub enum TerrainType {
    DeepOcean,
    Ocean,
    Land,
}

/// A biome.
#[derive(Debug, Clone, Copy, PartialEq, Eq, Hash, Structural)]
pub enum BiomeType {
    DeepOcean,
    Ocean,
    Plains,
    Desert,
    Forest,
    Mountains,
    SnowPlains,
}

/// The biome of dry land below the mountains, by the grade of its temperature
/// (1 for freezing to 5 for hot) and of its vegetation (1 for arid to 5 for
/// lush).
pub open spec fn land_biome(temperature: int, vegetation: int) -> BiomeType {
    if temperature == 1 || (temperature == 2 && 1 <= vegetation <= 2) {
        BiomeType::SnowPlains
    } else if (temperature == 4 && 1 <= vegetation <= 2) || (temperature == 5 && 1 <= vegetation
        <= 3) {
        BiomeType::Desert
    } else if temperature < 1 || temperature > 5 || (temperature == 3 && 1 <= vegetation <= 2) || (
    temperature == 4 && vegetation == 3) || (temperature == 5 && vegetation == 4) {
        BiomeType::Plains
    } else {
        BiomeType::Forest
    }
}

/// The biome of a place: the sea where the continents say so, mountains above
/// 180, and else what temperature and vegetation make of it.
pub open spec fn biome_at(
    terrain: TerrainType,
    surface_height: int,
    temperature: int,
    vegetation: int,
) -> BiomeType {
    match terrain {
        TerrainType::DeepOcean => BiomeType::DeepOcean,
        TerrainType::Ocean => BiomeType::Ocean,
        TerrainType::Land => if surface_height > 180 {
            BiomeType::Mountains
        } else {
            land_biome(temperature, vegetation)
        },
    }
}

/// The biome of a place.
pub fn get_biome(
    terrain: TerrainType,
    surface_height: i32,
    temperature_index: u8,
    vegetation_index: u8,
) -> (r: BiomeType)
    ensures
        r == biome_at(
            terrain,
            surface_height as int,
            temperature_index as int,
            vegetation_index as int,
        ),
{
    if terrain == TerrainType::DeepOcean {
        return BiomeType::DeepOcean;
    }
    if terrain == TerrainType::Ocean {
        return BiomeType::Ocean;
    }
    if surface_height > 180 {
        return BiomeType::Mountains;
    }
    let vi: u8 = vegetation_index;
    match temperature_index {
        1 => BiomeType::SnowPlains,
        2 => if vi == 1 || vi == 2 {
            BiomeType::SnowPlains
        } else {
            BiomeType::Forest
        },
        3 => if vi == 1 || vi == 2 {
            BiomeType::Plains
        } else {
            BiomeType::Forest
        },
        4 => if vi == 1 || vi == 2 {
            BiomeType::Desert
        } else if vi == 3 {
            BiomeType::Plains
        } else {
            BiomeType::Forest
        },
        5 => if 1 <= vi && vi <= 3 {
            BiomeType::Desert
        } else if vi == 4 {
            BiomeType::Plains
        } else {
            BiomeType::Forest
        },
        _ => BiomeType::Plains,
    }
}

impl BiomeType {
    /// The block at the surface. The sea floor is sand less than eight blocks
    /// under the sea level and stone below; mountains are rock above 160, stone
    /// above 130 and grass below.
    pub open spec fn spec_surface_block(self, world_y: int, sea_level: int) -> BlockId {
        match self {
            BiomeType::DeepOcean | BiomeType::Ocean => if world_y > sea_level - 8 {
                4
            } else {
                2
            },
            BiomeType::Plains | BiomeType::Forest => 1,
            BiomeType::Desert => 4,
            BiomeType::Mountains => if world_y > 160 {
                ROCK
            } else if world_y > 130 {
                2
            } else {
                1
            },
            BiomeType::SnowPlains => SNOW_GRASS,
        }
    }

    /// The block at the surface.
    pub fn surface_block(self, world_y: i32, sea_level: i32) -> (r: BlockId)
        requires
            sea_level >= i32::MIN + 8,
        ensures
            r == self.spec_surface_block(world_y as int, sea_level as int),
    {
        match self {
            BiomeType::DeepOcean | BiomeType::Ocean => if world_y > sea_level - 8 {
                crate::types::SAND
            } else {
                crate::types::STONE
            },
            BiomeType::Plains | BiomeType::Forest => crate::types::GRASS,
            BiomeType::Desert => crate::types::SAND,
            BiomeType::Mountains => if world_y > 160 {
                ROCK
            } else if world_y > 130 {
                crate::types::STONE
            } else {
                crate::types::GRASS
            },
            BiomeType::SnowPlains => SNOW_GRASS,
        }
    }

    /// The block at a depth under the surface.
    pub open spec fn spec_subsurface_block(self, depth: int) -> BlockId {
        match self {
            BiomeType::Desert => if depth < 4 {
                4
            } else {
                SANDSTONE
            },
            BiomeType::Mountains => if depth < 2 {
                GRAVEL
            } else {
                2
            },
            _ => if depth <= 4 {
                3
            } else {
                2
            },
        }
    }

    /// The block at a depth under the surface.
    pub fn subsurface_block(self, depth: i32) -> (r: BlockId)
        ensures
            r == self.spec_subsurface_block(depth as int),
    {
        match self {
            BiomeType::Desert => if depth < 4 {
                crate::types::SAND
            } else {
                SANDSTONE
            },
            BiomeType::Mountains => if depth < 2 {
                GRAVEL
            } else {
                crate::types::STONE
            },
            _ => if depth <= 4 {
                crate::types::DIRT
            } else {
                crate::types::STONE
            },
        }
    }

    /// How dense trees stand, in tenths of the usual density.
    pub open spec fn spec_tree_density_tenths(self) -> int {
        match self {
            BiomeType::Forest => 25,
            BiomeType::Plains => 4,
            BiomeType::SnowPlains => 2,
            BiomeType::Mountains => 1,
            BiomeType::Desert | BiomeType::Ocean | BiomeType::DeepOcean => 0,
        }
    }

    /// How dense trees stand, in tenths of the usual density.
    pub fn tree_density_tenths(self) -> (r: u32)
        ensures
            r == self.spec_tree_density_tenths(),
            r == match self {
                BiomeType::Forest => 25u32,
                BiomeType::Plains => 4,
                BiomeType::SnowPlains => 2,
                BiomeType::Mountains => 1,
                BiomeType::Desert | BiomeType::Ocean | BiomeType::DeepOcean => 0,
            },
    {
        match self {
            BiomeType::Forest => 25,
            BiomeType::Plains => 4,
            BiomeType::SnowPlains => 2,
            BiomeType::Desert => 0,
            BiomeType::Mountains => 1,
            BiomeType::Ocean | BiomeType::DeepOcean => 0,
        }
    }
}

/// No biome puts air or water at or under the surface.
pub proof fn law_ground_is_solid(b: BiomeType, y: int, sea_level: int, depth: int)
    ensures
        b.spec_surface_block(y, sea_level) != 0,
        b.spec_surface_block(y, sea_level) != 5,
        b.spec_subsurface_block(depth) != 0,
        b.spec_subsurface_block(depth) != 5,
{
}

/// The sea is where the continents say so and nowhere else, and above 180 there are
/// mountains and nowhere else, whatever the climate.
pub proof fn law_sea_and_mountains(
    terrain: TerrainType,
    surface_height: int,
    temperature: int,
    vegetation: int,
)
    ensures
        ({
            let b = biome_at(terrain, surface_height, temperature, vegetation);
            &&& b == BiomeType::DeepOcean <==> terrain == TerrainType::DeepOcean
            &&& b == BiomeType::Ocean <==> terrain == TerrainType::Ocean
            &&& b == BiomeType::Mountains <==> terrain == TerrainType::Land && surface_height > 180
        }),
{
}

/// On land below the mountains the freezing grade is snow whatever grows there; snow
/// only occurs in the two coldest grades and deserts only in the two warmest, and where a
/// grade is a desert, so are all warmer ones at equal vegetation.
pub proof fn law_snow_is_cold_and_deserts_are_warm(
    surface_height: int,
    temperature: int,
    warmer: int,
    vegetation: int,
)
    requires
        surface_height <= 180,
        1 <= temperature <= warmer <= 5,
    ensures
        ({
            let b = biome_at(TerrainType::Land, surface_height, temperature, vegetation);
            let w = biome_at(TerrainType::Land, surface_height, warmer, vegetation);
            &&& temperature == 1 ==> b == BiomeType::SnowPlains
            &&& b == BiomeType::SnowPlains ==> temperature <= 2
            &&& b == BiomeType::Desert ==> temperature >= 4
            &&& b == BiomeType::Desert ==> w == BiomeType::Desert
            &&& w == BiomeType::SnowPlains ==> b == BiomeType::SnowPlains
            &&& w == BiomeType::Forest ==> temperature > 1 ==> b == BiomeType::Forest
        }),
{
}

/// On land below the mountains, in each grade of temperature but the freezing one, woods
/// grow from the third grade of vegetation on, in the warmest two from the grade of the
/// temperature on. One grade less makes plains of the warmest two, and all that is drier
/// is a desert; the drier grades are snow in the second grade of temperature and plains
/// in the third.
pub proof fn law_woods_need_rain(surface_height: int, temperature: int, vegetation: int)
    requires
        surface_height <= 180,
        2 <= temperature <= 5,
        1 <= vegetation <= 5,
    ensures
        ({
            let b = biome_at(TerrainType::Land, surface_height, temperature, vegetation);
            &&& b == BiomeType::Forest <==> vegetation >= 3 && (temperature >= 4 ==> vegetation
                >= temperature)
            &&& b == BiomeType::Desert <==> temperature >= 4 && vegetation < temperature - 1
            &&& b == BiomeType::SnowPlains <==> temperature == 2 && vegetation < 3
            &&& b == BiomeType::Plains <==> (temperature == 3 && vegetation < 3) || (temperature >= 4
                && vegetation == temperature - 1)
        }),
{
}

/// Where more grows there are no fewer trees.
pub proof fn law_trees_follow_vegetation(
    surface_height: int,
    temperature: int,
    vegetation: int,
    lusher: int,
)
    requires
        1 <= vegetation <= lusher <= 5,
    ensures
        biome_at(
            TerrainType::Land,
            surface_height,
            temperature,
            vegetation,
        ).spec_tree_density_tenths() <= biome_at(
            TerrainType::Land,
            surface_height,
            temperature,
            lusher,
        ).spec_tree_density_tenths(),
{
}

/// No biome has more trees than the forest, and none has fewer than the sea and the
/// desert, which have none.
pub proof fn law_forests_have_most_trees(b: BiomeType)
    ensures
        0 <= b.spec_tree_density_tenths() <= BiomeType::Forest.spec_tree_density_tenths(),
        b != BiomeType::Forest ==> b.spec_tree_density_tenths()
            < BiomeType::Forest.spec_tree_density_tenths(),
        b.spec_tree_density_tenths() == 0 <==> b == BiomeType::Ocean || b == BiomeType::DeepOcean || b
            == BiomeType::Desert,
        b.spec_tree_density_tenths() > BiomeType::SnowPlains.spec_tree_density_tenths() <==> b
            == BiomeType::Forest || b == BiomeType::Plains,
        b.spec_tree_density_tenths() < BiomeType::SnowPlains.spec_tree_density_tenths() <==> b
            == BiomeType::Mountains || b.spec_tree_density_tenths() == 0,
        BiomeType::Mountains.spec_tree_density_tenths() == 1,
        BiomeType::SnowPlains.spec_tree_density_tenths() == 2
            * BiomeType::Mountains.spec_tree_density_tenths(),
        BiomeType::Plains.spec_tree_density_tenths() == 2
            * BiomeType::SnowPlains.spec_tree_density_tenths(),
        4 * BiomeType::Forest.spec_tree_density_tenths() == 25
            * BiomeType::Plains.spec_tree_density_tenths(),
{
}

/// The sea floor is sand where the water above it is less than eight blocks deep and
/// stone below, and of two places of the sea floor the lower one is not sand where the
/// higher one is stone.
pub proof fn law_sea_floor(b: BiomeType, y: int, lower: int, sea_level: int)
    requires
        b == BiomeType::Ocean || b == BiomeType::DeepOcean,
        lower <= y,
    ensures
        b.spec_surface_block(y, sea_level) == SAND <==> sea_level - y < 8,
        b.spec_surface_block(y, sea_level) == STONE <==> sea_level - y >= 8,
        b.spec_surface_block(lower, sea_level) == SAND ==> b.spec_surface_block(y, sea_level)
            == SAND,
{
}

/// Dry ground does not depend on the sea. Snow lies on snow plains and nowhere else, bare
/// rock on mountains alone, and all deserts are sand; the sea floor and mountains apart,
/// the ground is the same at all heights.
pub proof fn law_dry_ground(b: BiomeType, y: int, other: int, sea_level: int, other_level: int)
    requires
        b != BiomeType::Ocean,
        b != BiomeType::DeepOcean,
    ensures
        b.spec_surface_block(y, sea_level) == b.spec_surface_block(y, other_level),
        b.spec_surface_block(y, sea_level) == SNOW_GRASS <==> b == BiomeType::SnowPlains,
        b.spec_surface_block(y, sea_level) == SAND <==> b == BiomeType::Desert,
        b.spec_surface_block(y, sea_level) == GRASS <==> b == BiomeType::Plains || b
            == BiomeType::Forest || (b == BiomeType::Mountains && y <= 130),
        b.spec_surface_block(y, sea_level) == ROCK <==> b == BiomeType::Mountains && y > 160,
        b != BiomeType::Mountains ==> b.spec_surface_block(y, sea_level) == b.spec_surface_block(
            other,
            sea_level,
        ),
{
}

/// Under the surface soil comes first and rock below: what lies deeper is not soil where
/// something higher is rock. Deserts have four layers of sand over sandstone, mountains
/// two of gravel over stone, and all else dirt down to the fourth layer over stone.
pub proof fn law_soil_over_rock(b: BiomeType, depth: int, deeper: int)
    requires
        depth <= deeper,
    ensures
        ({
            let (s, d) = (b.spec_subsurface_block(depth), b.spec_subsurface_block(deeper));
            &&& s == SANDSTONE || s == STONE ==> d == s
            &&& s == SAND <==> b == BiomeType::Desert && depth < 4
            &&& s == SANDSTONE <==> b == BiomeType::Desert && depth >= 4
            &&& s == GRAVEL <==> b == BiomeType::Mountains && depth < 2
            &&& s == DIRT <==> b != BiomeType::Desert && b != BiomeType::Mountains && depth < 5
        }),
{
}

} // verus!
