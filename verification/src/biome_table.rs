//! Nine kinds of country and how the climate chooses between them.

use crate::text;
use crate::types::{BlockId, DIRT, GRASS, SAND, STONE};
use vstd::prelude::*;
use vstd::string::*;

verus! {

/// The block of snow.
pub const SNOW: BlockId = 9;

/// A kind of country.
#[derive(Debug, Clone, Copy, PartialEq, Eq, Hash, Structural)]
pub enum BiomeId {
    /// Golden dunes without plants.
    Desert,
    /// Grass with few trees.
    Savanna,
    /// Dense woods with vines.
    Jungle,
    /// Low and wet, with trees.
    Swamp,
    /// Flat grass with flowers.
    Plains,
    /// Many trees.
    Forest,
    /// Pines in the snow.
    Taiga,
    /// White plains.
    Tundra,
    /// Bare rock and snow.
    Mountains,
}

impl BiomeId {
    /// The number of the kind.
    pub open spec fn number(self) -> int {
        match self {
            BiomeId::Desert => 0,
            BiomeId::Savanna => 1,
            BiomeId::Jungle => 2,
            BiomeId::Swamp => 3,
            BiomeId::Plains => 4,
            BiomeId::Forest => 5,
            BiomeId::Taiga => 6,
            BiomeId::Tundra => 7,
            BiomeId::Mountains => 8,
        }
    }

    /// The kind with a number, if there is one.
    pub fn from_u8(value: u8) -> (r: Option<Self>)
        ensures
            match r {
                Some(id) => id.number() == value,
                None => value >= 9,
            },
    {
        match value {
            0 => Some(BiomeId::Desert),
            1 => Some(BiomeId::Savanna),
            2 => Some(BiomeId::Jungle),
            3 => Some(BiomeId::Swamp),
            4 => Some(BiomeId::Plains),
            5 => Some(BiomeId::Forest),
            6 => Some(BiomeId::Taiga),
            7 => Some(BiomeId::Tundra),
            8 => Some(BiomeId::Mountains),
            _ => None,
        }
    }
}

/// A kind of tree.
#[derive(Debug, Clone, Copy, PartialEq, Eq, Structural)]
pub enum TreeType {
    /// None at all.
    NoTree,
    /// In plains and forests.
    Oak,
    /// In the cold.
    Pine,
    /// In dense woods.
    JungleTree,
    /// With vines.
    SwampTree,
}

/// What a kind of country is like. Temperature, humidity and densities are in
/// hundredths.
#[derive(Debug, Clone, Copy)]
pub struct Biome {
    pub id: BiomeId,
    pub name: &'static str,
    /// From -100 to 100.
    pub temperature: i32,
    /// From -100 to 100.
    pub humidity: i32,
    pub surface_block: BlockId,
    pub under_surface_block: BlockId,
    /// The layers of soil.
    pub soil_thickness: i32,
    /// From 0 to 100.
    pub tree_density: u32,
    pub tree_type: TreeType,
    /// From 0 to 100.
    pub grass_density: u32,
    pub is_snowy: bool,
    pub is_wet: bool,
    /// Whether hardly anything grows.
    pub is_sparse: bool,
}

/// The name of a kind of country.
pub open spec fn name_of(id: BiomeId) -> Seq<char> {
    match id {
        BiomeId::Desert => "沙漠"@,
        BiomeId::Savanna => "热带草原"@,
        BiomeId::Jungle => "丛林"@,
        BiomeId::Swamp => "沼泽"@,
        BiomeId::Plains => "平原"@,
        BiomeId::Forest => "森林"@,
        BiomeId::Taiga => "针叶林"@,
        BiomeId::Tundra => "冰原"@,
        BiomeId::Mountains => "高山"@,
    }
}

/// The mean temperature and humidity of a kind of country, in hundredths.
pub open spec fn climate_of(id: BiomeId) -> (int, int) {
    match id {
        BiomeId::Desert => (90, 10),
        BiomeId::Savanna => (70, 30),
        BiomeId::Jungle => (80, 80),
        BiomeId::Swamp => (50, 90),
        BiomeId::Plains => (40, 40),
        BiomeId::Forest => (30, 50),
        BiomeId::Taiga => (-10, 40),
        BiomeId::Tundra => (-40, 10),
        BiomeId::Mountains => (-20, 30),
    }
}

/// The block at the surface, the block below it, and the layers of soil.
pub open spec fn ground_of(id: BiomeId) -> (BlockId, BlockId, int) {
    match id {
        BiomeId::Desert => (SAND, SAND, 2),
        BiomeId::Savanna => (GRASS, DIRT, 3),
        BiomeId::Jungle => (GRASS, DIRT, 4),
        BiomeId::Swamp => (DIRT, DIRT, 4),
        BiomeId::Plains => (GRASS, DIRT, 4),
        BiomeId::Forest => (GRASS, DIRT, 4),
        BiomeId::Taiga => (GRASS, STONE, 3),
        BiomeId::Tundra => (SNOW, STONE, 2),
        BiomeId::Mountains => (STONE, STONE, 0),
    }
}

/// The trees, how dense they are, and how dense the grass is, in hundredths.
pub open spec fn plants_of(id: BiomeId) -> (TreeType, int, int) {
    match id {
        BiomeId::Desert => (TreeType::NoTree, 0, 0),
        BiomeId::Savanna => (TreeType::Oak, 15, 60),
        BiomeId::Jungle => (TreeType::JungleTree, 80, 40),
        BiomeId::Swamp => (TreeType::SwampTree, 40, 30),
        BiomeId::Plains => (TreeType::Oak, 5, 80),
        BiomeId::Forest => (TreeType::Oak, 50, 50),
        BiomeId::Taiga => (TreeType::Pine, 40, 30),
        BiomeId::Tundra => (TreeType::NoTree, 0, 0),
        BiomeId::Mountains => (TreeType::NoTree, 0, 0),
    }
}

/// What a kind of country is like.
pub fn get_biome(biome_id: BiomeId) -> (r: Biome)
    ensures
        r.id == biome_id,
        r.name@ == name_of(biome_id),
        (r.temperature as int, r.humidity as int) == climate_of(biome_id),
        (r.surface_block, r.under_surface_block, r.soil_thickness as int) == ground_of(biome_id),
        (r.tree_type, r.tree_density as int, r.grass_density as int) == plants_of(biome_id),
        r.is_snowy == (climate_of(biome_id).0 < 0),
        r.is_wet == (climate_of(biome_id).1 >= 80),
        r.is_sparse == (plants_of(biome_id).2 == 0),
{
    match biome_id {
        BiomeId::Desert => Biome {
            id: biome_id,
            name: "沙漠",
            temperature: 90,
            humidity: 10,
            surface_block: SAND,
            under_surface_block: SAND,
            soil_thickness: 2,
            tree_density: 0,
            tree_type: TreeType::NoTree,
            grass_density: 0,
            is_snowy: false,
            is_wet: false,
            is_sparse: true,
        },
        BiomeId::Savanna => Biome {
            id: biome_id,
            name: "热带草原",
            temperature: 70,
            humidity: 30,
            surface_block: GRASS,
            under_surface_block: DIRT,
            soil_thickness: 3,
            tree_density: 15,
            tree_type: TreeType::Oak,
            grass_density: 60,
            is_snowy: false,
            is_wet: false,
            is_sparse: false,
        },
        BiomeId::Jungle => Biome {
            id: biome_id,
            name: "丛林",
            temperature: 80,
            humidity: 80,
            surface_block: GRASS,
            under_surface_block: DIRT,
            soil_thickness: 4,
            tree_density: 80,
            tree_type: TreeType::JungleTree,
            grass_density: 40,
            is_snowy: false,
            is_wet: true,
            is_sparse: false,
        },
        BiomeId::Swamp => Biome {
            id: biome_id,
            name: "沼泽",
            temperature: 50,
            humidity: 90,
            surface_block: DIRT,
            under_surface_block: DIRT,
            soil_thickness: 4,
            tree_density: 40,
            tree_type: TreeType::SwampTree,
            grass_density: 30,
            is_snowy: false,
            is_wet: true,
            is_sparse: false,
        },
        BiomeId::Plains => Biome {
            id: biome_id,
            name: "平原",
            temperature: 40,
            humidity: 40,
            surface_block: GRASS,
            under_surface_block: DIRT,
            soil_thickness: 4,
            tree_density: 5,
            tree_type: TreeType::Oak,
            grass_density: 80,
            is_snowy: false,
            is_wet: false,
            is_sparse: false,
        },
        BiomeId::Forest => Biome {
            id: biome_id,
            name: "森林",
            temperature: 30,
            humidity: 50,
            surface_block: GRASS,
            under_surface_block: DIRT,
            soil_thickness: 4,
            tree_density: 50,
            tree_type: TreeType::Oak,
            grass_density: 50,
            is_snowy: false,
            is_wet: false,
            is_sparse: false,
        },
        BiomeId::Taiga => Biome {
            id: biome_id,
            name: "针叶林",
            temperature: -10,
            humidity: 40,
            surface_block: GRASS,
            under_surface_block: STONE,
            soil_thickness: 3,
            tree_density: 40,
            tree_type: TreeType::Pine,
            grass_density: 30,
            is_snowy: true,
            is_wet: false,
            is_sparse: false,
        },
        BiomeId::Tundra => Biome {
            id: biome_id,
            name: "冰原",
            temperature: -40,
            humidity: 10,
            surface_block: SNOW,
            under_surface_block: STONE,
            soil_thickness: 2,
            tree_density: 0,
            tree_type: TreeType::NoTree,
            grass_density: 0,
            is_snowy: true,
            is_wet: false,
            is_sparse: true,
        },
        BiomeId::Mountains => Biome {
            id: biome_id,
            name: "高山",
            temperature: -20,
            humidity: 30,
            surface_block: STONE,
            under_surface_block: STONE,
            soil_thickness: 0,
            tree_density: 0,
            tree_type: TreeType::NoTree,
            grass_density: 0,
            is_snowy: true,
            is_wet: false,
            is_sparse: true,
        },
    }
}

/// All kinds of country, by their numbers.
pub fn get_all_biome_ids() -> (r: [BiomeId; 9])
    ensures
        forall|i: int| 0 <= i < 9 ==> (#[trigger] r@[i]).number() == i,
{
    [
        BiomeId::Desert,
        BiomeId::Savanna,
        BiomeId::Jungle,
        BiomeId::Swamp,
        BiomeId::Plains,
        BiomeId::Forest,
        BiomeId::Taiga,
        BiomeId::Tundra,
        BiomeId::Mountains,
    ]
}

/// The kind of country with a name, if there is one.
pub fn get_biome_by_name(name: &str) -> (r: Option<BiomeId>)
    ensures
        match r {
            Some(id) => name@ == name_of(id),
            None => forall|id: BiomeId| name@ != #[trigger] name_of(id),
        },
{
    let ids: [BiomeId; 9] = get_all_biome_ids();
    let mut i: usize = 0;
    while i < 9
        invariant
            i <= 9,
            forall|k: int| 0 <= k < 9 ==> (#[trigger] ids@[k]).number() == k,
            forall|k: int| 0 <= k < i ==> name@ != name_of(#[trigger] ids@[k]),
        decreases 9 - i,
    {
        let id: BiomeId = ids[i];
        if text::same_text(name, get_biome(id).name) {
            return Some(id);
        }
        i = i + 1;
    }
    assert forall|id: BiomeId| name@ != #[trigger] name_of(id) by {
        assert(0 <= id.number() < 9);
        assert(ids@[id.number()].number() == id.number());
        assert(ids@[id.number()] == id);
    }
    None
}

/// No two kinds of country have the same name.
pub proof fn law_names_differ(a: BiomeId, b: BiomeId)
    requires
        name_of(a) == name_of(b),
    ensures
        a == b,
{
    reveal_strlit("沙漠");
    reveal_strlit("热带草原");
    reveal_strlit("丛林");
    reveal_strlit("沼泽");
    reveal_strlit("平原");
    reveal_strlit("森林");
    reveal_strlit("针叶林");
    reveal_strlit("冰原");
    reveal_strlit("高山");
    assert("沙漠"@[0] == '沙');
    assert("热带草原"@[0] == '热');
    assert("丛林"@[0] == '丛');
    assert("沼泽"@[0] == '沼');
    assert("平原"@[0] == '平');
    assert("森林"@[0] == '森');
    assert("针叶林"@[0] == '针');
    assert("冰原"@[0] == '冰');
    assert("高山"@[0] == '高');
    assert(name_of(a)[0] == name_of(b)[0]);
}

/// How warm a place is.
#[derive(Debug, Clone, Copy, PartialEq, Eq, Structural)]
pub enum Warmth {
    /// Below 0.
    Frozen,
    /// At 0.
    Icy,
    /// Above 0.
    Cold,
    /// Above 0.2.
    Mild,
    /// Above 0.5.
    Warm,
    /// Above 0.7.
    Hot,
}

/// How much water the air of a place holds.
#[derive(Debug, Clone, Copy, PartialEq, Eq, Structural)]
pub enum Moisture {
    /// Below 0.2.
    Arid,
    /// From 0.2 and below 0.3.
    Dry,
    /// From 0.3 to 0.5.
    Moderate,
    /// Above 0.5.
    Moist,
    /// Above 0.6.
    Humid,
    /// Above 0.7.
    Soaked,
}

/// How high a place is.
#[derive(Debug, Clone, Copy, PartialEq, Eq, Structural)]
pub enum Elevation {
    /// Up to 256.
    Low,
    /// Above 256.
    High,
    /// Above 512.
    Peak,
}

/// The kind of country of a climate.
pub open spec fn spec_select_biome(warmth: Warmth, moisture: Moisture, elevation: Elevation) -> BiomeId {
    let dry = moisture == Moisture::Arid || moisture == Moisture::Dry;
    let humid = moisture == Moisture::Humid || moisture == Moisture::Soaked;
    if elevation == Elevation::Peak {
        BiomeId::Mountains
    } else if elevation == Elevation::High && warmth == Warmth::Frozen {
        BiomeId::Taiga
    } else {
        match warmth {
            Warmth::Hot => if humid || moisture == Moisture::Moist {
                BiomeId::Savanna
            } else {
                BiomeId::Desert
            },
            Warmth::Warm => if dry {
                BiomeId::Savanna
            } else if humid {
                BiomeId::Jungle
            } else {
                BiomeId::Plains
            },
            Warmth::Mild => if dry {
                BiomeId::Plains
            } else if moisture == Moisture::Soaked {
                BiomeId::Swamp
            } else {
                BiomeId::Forest
            },
            Warmth::Cold => BiomeId::Taiga,
            Warmth::Icy | Warmth::Frozen => BiomeId::Tundra,
        }
    }
}

/// The kind of country of a climate.
pub fn select_biome(warmth: Warmth, moisture: Moisture, elevation: Elevation) -> (r: BiomeId)
    ensures
        r == spec_select_biome(warmth, moisture, elevation),
{
    match elevation {
        Elevation::Peak => {
            return BiomeId::Mountains;
        },
        Elevation::High => {
            if warmth == Warmth::Frozen {
                return BiomeId::Taiga;
            }
        },
        Elevation::Low => {},
    }
    match (warmth, moisture) {
        (Warmth::Hot, Moisture::Moist | Moisture::Humid | Moisture::Soaked) => BiomeId::Savanna,
        (Warmth::Hot, _) => BiomeId::Desert,
        (Warmth::Warm, Moisture::Arid | Moisture::Dry) => BiomeId::Savanna,
        (Warmth::Warm, Moisture::Humid | Moisture::Soaked) => BiomeId::Jungle,
        (Warmth::Warm, _) => BiomeId::Plains,
        (Warmth::Mild, Moisture::Arid | Moisture::Dry) => BiomeId::Plains,
        (Warmth::Mild, Moisture::Soaked) => BiomeId::Swamp,
        (Warmth::Mild, _) => BiomeId::Forest,
        (Warmth::Cold, _) => BiomeId::Taiga,
        (Warmth::Icy | Warmth::Frozen, _) => BiomeId::Tundra,
    }
}

/// How moist the air is, counted from the driest.
pub open spec fn moisture_rank(m: Moisture) -> int {
    match m {
        Moisture::Arid => 0,
        Moisture::Dry => 1,
        Moisture::Moderate => 2,
        Moisture::Moist => 3,
        Moisture::Humid => 4,
        Moisture::Soaked => 5,
    }
}

/// Moister air never makes a drier country, at the same warmth and height.
pub proof fn law_moister_air_makes_moister_country(
    warmth: Warmth,
    a: Moisture,
    b: Moisture,
    elevation: Elevation,
)
    requires
        moisture_rank(a) <= moisture_rank(b),
    ensures
        climate_of(spec_select_biome(warmth, a, elevation)).1 <= climate_of(
            spec_select_biome(warmth, b, elevation),
        ).1,
{
}

/// The highest country is mountains, and no other is. Below, the country is below freezing on
/// the mean exactly if the air is cold, and in frozen air it is tundra but for high ground.
pub proof fn law_cold_country(warmth: Warmth, moisture: Moisture, elevation: Elevation)
    ensures
        ({
            let b = spec_select_biome(warmth, moisture, elevation);
            let cold = warmth is Cold || warmth is Icy || warmth is Frozen;
            &&& b is Mountains <==> elevation is Peak
            &&& climate_of(b).0 < 0 <==> cold || elevation is Peak
            &&& b is Tundra <==> !(elevation is Peak) && (warmth is Icy || (warmth is Frozen
                && elevation is Low))
            &&& b is Taiga <==> !(elevation is Peak) && (warmth is Cold || (warmth is Frozen
                && elevation is High))
        }),
{
}

/// Deserts are hot and not moist, jungles are warm and humid, swamps are mild and soaked,
/// forests are mild and neither dry nor soaked; plains are drier than the forests and jungles
/// of their warmth, and savannas moister than deserts.
pub proof fn law_country_by_climate(warmth: Warmth, moisture: Moisture, elevation: Elevation)
    requires
        !(elevation is Peak),
    ensures
        ({
            let b = spec_select_biome(warmth, moisture, elevation);
            let m = moisture_rank(moisture);
            &&& b is Desert <==> warmth is Hot && m <= 2
            &&& b is Jungle <==> warmth is Warm && m >= 4
            &&& b is Swamp <==> warmth is Mild && m == 5
            &&& b is Forest <==> warmth is Mild && 2 <= m <= 4
            &&& b is Plains <==> (warmth is Mild && m <= 1) || (warmth is Warm && 2 <= m <= 3)
            &&& b is Savanna <==> (warmth is Hot && m >= 3) || (warmth is Warm && m <= 1)
        }),
{
}

/// The desert is the hottest country and as dry as any, the tundra the coldest, and the swamp
/// the wettest. Trees stand where their density says, most of them in the jungle, and bare
/// country has no grass either.
pub proof fn law_extremes_of_country(b: BiomeId)
    ensures
        climate_of(BiomeId::Tundra).0 <= climate_of(b).0 <= climate_of(BiomeId::Desert).0,
        climate_of(BiomeId::Desert).1 <= climate_of(b).1 <= climate_of(BiomeId::Swamp).1,
        plants_of(b).0 is NoTree <==> plants_of(b).1 == 0,
        plants_of(b).0 is NoTree <==> plants_of(b).2 == 0,
        plants_of(b).0 is NoTree <==> b is Desert || b is Tundra || b is Mountains,
        plants_of(b).1 <= plants_of(BiomeId::Jungle).1,
        plants_of(b).2 <= plants_of(BiomeId::Plains).2,
        plants_of(b).0 is Pine <==> climate_of(b).0 < 0 && plants_of(b).1 > 0,
        plants_of(b).0 is JungleTree <==> b is Jungle,
        plants_of(b).0 is SwampTree <==> b is Swamp,
{
}

/// Sand is the ground of the desert alone and snow that of the tundra alone; grass grows where
/// there are trees, but for the swamp. There is rock below where it is cold, and only the
/// mountains have no soil.
pub proof fn law_ground_of_country(b: BiomeId)
    ensures
        ground_of(b).0 == SAND <==> b is Desert,
        ground_of(b).1 == SAND <==> b is Desert,
        ground_of(b).0 == SNOW <==> b is Tundra,
        ground_of(b).0 == GRASS <==> plants_of(b).1 > 0 && !(b is Swamp),
        ground_of(b).1 == STONE <==> climate_of(b).0 < 0,
        ground_of(b).2 == 0 <==> b is Mountains,
        0 <= ground_of(b).2 <= 4,
        ground_of(b).2 == 4 <==> climate_of(b).0 >= 0 && climate_of(b).1 >= 40,
{
}

} // verus!
