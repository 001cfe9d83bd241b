use voxel_engine::biome::{get_biome as get_biome_type, BiomeType, TerrainType};
use voxel_engine::biome_table::{
    get_all_biome_ids, get_biome, get_biome_by_name, select_biome, BiomeId, Elevation, Moisture,
    TreeType, Warmth, SNOW,
};
use voxel_engine::bits::{get_field, set_field};
use voxel_engine::perf_logger::{
    csv_header, file_step, is_leap_year, timestamp_filename, unix_to_ymdhms, DateTime, FileStep,
};
use voxel_engine::spline::find_segment;
use voxel_engine::text::{is_less, push_decimal, push_padded, push_signed, same_text};
use voxel_engine::types::{BlockPos, AIR, SAND};
use voxel_engine::view::{label_number, mesh_triangles, target_text, CursorGrab, ViewMode};

#[test]
fn kinds_of_country_have_numbers_and_names() {
    let ids = get_all_biome_ids();
    for (i, id) in ids.iter().enumerate() {
        assert_eq!(BiomeId::from_u8(i as u8), Some(*id));
        assert_eq!(get_biome_by_name(get_biome(*id).name), Some(*id));
    }
    assert_eq!(BiomeId::from_u8(9), None);
    assert_eq!(get_biome_by_name("高山"), Some(BiomeId::Mountains));
    assert_eq!(get_biome_by_name("高"), None);
    let desert = get_biome(BiomeId::Desert);
    assert_eq!((desert.temperature, desert.humidity), (90, 10));
    assert_eq!(desert.surface_block, SAND);
    assert!(desert.is_sparse);
    let taiga = get_biome(BiomeId::Taiga);
    assert_eq!(taiga.tree_type, TreeType::Pine);
    assert!(taiga.is_snowy);
    assert_eq!(get_biome(BiomeId::Tundra).surface_block, SNOW);
}

#[test]
fn the_climate_chooses() {
    let choose = select_biome;
    assert_eq!(choose(Warmth::Hot, Moisture::Arid, Elevation::Peak), BiomeId::Mountains);
    assert_eq!(choose(Warmth::Frozen, Moisture::Arid, Elevation::High), BiomeId::Taiga);
    assert_eq!(choose(Warmth::Frozen, Moisture::Arid, Elevation::Low), BiomeId::Tundra);
    assert_eq!(choose(Warmth::Hot, Moisture::Moderate, Elevation::Low), BiomeId::Desert);
    assert_eq!(choose(Warmth::Hot, Moisture::Moist, Elevation::Low), BiomeId::Savanna);
    assert_eq!(choose(Warmth::Warm, Moisture::Humid, Elevation::High), BiomeId::Jungle);
    assert_eq!(choose(Warmth::Warm, Moisture::Moist, Elevation::Low), BiomeId::Plains);
    assert_eq!(choose(Warmth::Mild, Moisture::Soaked, Elevation::Low), BiomeId::Swamp);
    assert_eq!(choose(Warmth::Mild, Moisture::Humid, Elevation::Low), BiomeId::Forest);
    assert_eq!(choose(Warmth::Cold, Moisture::Dry, Elevation::Low), BiomeId::Taiga);
}

#[test]
fn ground_is_never_air() {
    for b in [
        BiomeType::DeepOcean,
        BiomeType::Ocean,
        BiomeType::Plains,
        BiomeType::Desert,
        BiomeType::Forest,
        BiomeType::Mountains,
        BiomeType::SnowPlains,
    ] {
        for y in -100..300 {
            assert_ne!(b.surface_block(y, 62), AIR);
            assert_ne!(b.subsurface_block(y), AIR);
        }
    }
    assert_eq!(get_biome_type(TerrainType::DeepOcean, 0, 2, 2), BiomeType::DeepOcean);
    assert_eq!(get_biome_type(TerrainType::Ocean, 0, 2, 2), BiomeType::Ocean);
}

#[test]
fn dates_of_log_files() {
    assert!(is_leap_year(2000));
    assert!(is_leap_year(2024));
    assert!(!is_leap_year(1900));
    assert!(!is_leap_year(2023));
    assert_eq!(
        unix_to_ymdhms(0),
        DateTime { year: 1970, month: 1, day: 1, hour: 0, minute: 0, second: 0 }
    );
    assert_eq!(
        unix_to_ymdhms(951_782_400),
        DateTime { year: 2000, month: 2, day: 29, hour: 0, minute: 0, second: 0 }
    );
    assert_eq!(
        unix_to_ymdhms(1_700_000_000),
        DateTime { year: 2023, month: 11, day: 14, hour: 22, minute: 13, second: 20 }
    );
    assert_eq!(timestamp_filename(1_700_000_000), "2023-11-14_22-13-20-perf_log.csv");
    assert_eq!(timestamp_filename(0), "1970-01-01_00-00-00-perf_log.csv");
    assert_eq!(csv_header().split(',').count(), 5);
    assert_eq!(file_step(true, false), FileStep::Open);
    assert_eq!(file_step(false, true), FileStep::Close);
    assert_eq!(file_step(true, true), FileStep::Keep);
}

#[test]
fn a_value_lies_between_two_points() {
    let points = vec![-10, 0, 5, 5, 40];
    assert_eq!(find_segment(&points, -10), (0, 1));
    assert_eq!(find_segment(&points, 3), (1, 2));
    assert_eq!(find_segment(&points, 5), (3, 4));
    assert_eq!(find_segment(&points, 39), (3, 4));
}

#[test]
fn the_view_is_switched() {
    assert_eq!(ViewMode::default(), ViewMode::FirstPerson);
    assert_eq!(ViewMode::FirstPerson.toggled(), ViewMode::ThirdPerson);
    assert_eq!(ViewMode::ThirdPerson.toggled(), ViewMode::FirstPerson);
    assert!(ViewMode::ThirdPerson.shows_player());
    assert!(!ViewMode::FirstPerson.shows_player());
    assert_eq!(CursorGrab::Locked.toggled(), CursorGrab::Free);
    assert_eq!(CursorGrab::Confined.toggled(), CursorGrab::Locked);
    assert!(CursorGrab::Free.is_visible());
    assert!(!CursorGrab::Locked.is_visible());
}

#[test]
fn texts_on_the_screen() {
    assert_eq!(target_text(None), "Target: --");
    assert_eq!(target_text(Some(BlockPos { x: 1, y: -20, z: 300 })), "Target: (1, -20, 300)");
    assert_eq!(label_number("Chunks: ", 1024), "Chunks: 1024");
    assert_eq!(mesh_triangles(Some(36), 24), 12);
    assert_eq!(mesh_triangles(None, 24), 8);
}

#[test]
fn numbers_as_text() {
    let mut s = String::new();
    push_decimal(&mut s, u64::MAX);
    s.push(' ');
    push_signed(&mut s, i64::MIN);
    s.push(' ');
    push_padded(&mut s, 7, 3);
    assert_eq!(s, "18446744073709551615 -9223372036854775808 007");
    assert!(same_text("abc", "abc"));
    assert!(!same_text("abc", "abd"));
    assert!(is_less("ab", "abc"));
    assert!(is_less("ab", "b"));
    assert!(!is_less("b", "b"));
}

#[test]
fn fields_of_a_word() {
    let w = set_field(u64::MAX, 8, 8, 0x5A);
    assert_eq!(w, 0xFFFF_FFFF_FFFF_5AFF);
    assert_eq!(get_field(w, 8, 8), 0x5A);
    assert_eq!(get_field(w, 0, 8), 0xFF);
}
