use deep_tek::spawning::{
    LifeformSpawnRule, attention_population_limit, chunk_distance_from_rect, chunk_rects_intersect,
    interval_elapsed, select_spawn, spawn_hash, spawn_pressure_succeeds,
};
use deep_tek::{
    BiomeId, ChunkActivity, LifeformId, ChunkPos, ChunkRect, LifeformSimulationConfig, MachineryArea, MachinerySource,
    TilePos, refresh_machinery_chunks,
};

fn chunk(x: u32, y: u32) -> ChunkPos {
    ChunkPos { x, y }
}

fn amount(entries: &[(ChunkPos, u32)], wanted: ChunkPos) -> Option<u32> {
    entries
        .iter()
        .find(|(position, _)| *position == wanted)
        .map(|(_, value)| *value)
}

fn source(anchor: TilePos, size: [u8; 2], activity: ChunkActivity, attention: u32, active: bool) -> MachinerySource {
    MachinerySource { anchor, size, activity, attention, active }
}

#[test]
fn machinery_keeps_its_rectangle_active_and_divides_attention_by_distance() {
    let area = MachineryArea {
        chunks_wide: 4,
        chunks_high: 3,
        player_chunks: ChunkRect { minimum: chunk(0, 0), maximum: chunk(1, 0) },
        radius: [1, 1],
    };
    let sources = [
        source(TilePos::new(130, 70), [3, 3], ChunkActivity::Nearby, 30, true),
        source(TilePos::new(0, 130), [1, 1], ChunkActivity::Local, 10, false),
        source(TilePos::new(0, 0), [1, 1], ChunkActivity::Nearby, 100, false),
        source(TilePos::new(200, 150), [1, 1], ChunkActivity::Dormant, 50, true),
    ];
    let refreshed = refresh_machinery_chunks(&sources, area, 5);
    assert_eq!(
        refreshed.machinery_chunks,
        vec![
            chunk(2, 0),
            chunk(3, 0),
            chunk(1, 1),
            chunk(2, 1),
            chunk(3, 1),
            chunk(0, 2),
            chunk(1, 2),
            chunk(2, 2),
            chunk(3, 2),
        ]
    );
    assert_eq!(refreshed.spawn_chunks, vec![chunk(0, 2)]);
    assert_eq!(refreshed.player_attention, 30);
    assert_eq!(refreshed.distant_attention, 10);
    assert_eq!(refreshed.spawn_cursor, 0);
    assert_eq!(refreshed.attention_by_chunk.len(), 10);
    assert_eq!(amount(&refreshed.attention_by_chunk, chunk(2, 1)), Some(30));
    assert_eq!(amount(&refreshed.attention_by_chunk, chunk(1, 0)), Some(15));
    assert_eq!(amount(&refreshed.attention_by_chunk, chunk(3, 2)), Some(15));
    assert_eq!(amount(&refreshed.attention_by_chunk, chunk(0, 2)), Some(10));
    assert_eq!(amount(&refreshed.attention_by_chunk, chunk(0, 0)), None);
    assert_eq!(refreshed.distant_attention_by_chunk, vec![(chunk(0, 2), 10)]);
}

#[test]
fn overlapping_machinery_adds_attention_and_lists_each_chunk_once() {
    let area = MachineryArea {
        chunks_wide: 3,
        chunks_high: 1,
        player_chunks: ChunkRect { minimum: chunk(0, 0), maximum: chunk(0, 0) },
        radius: [1, 0],
    };
    let sources = [
        source(TilePos::new(130, 0), [1, 1], ChunkActivity::Nearby, 9, true),
        source(TilePos::new(140, 0), [1, 1], ChunkActivity::Nearby, u32::MAX, true),
    ];
    let refreshed = refresh_machinery_chunks(&sources, area, 3);
    assert_eq!(refreshed.machinery_chunks, vec![chunk(1, 0), chunk(2, 0)]);
    assert_eq!(refreshed.spawn_chunks, vec![chunk(1, 0), chunk(2, 0)]);
    assert_eq!(refreshed.distant_attention, u32::MAX);
    assert_eq!(amount(&refreshed.distant_attention_by_chunk, chunk(1, 0)), Some(2_147_483_652));
    assert_eq!(amount(&refreshed.distant_attention_by_chunk, chunk(2, 0)), Some(u32::MAX));
    assert_eq!(amount(&refreshed.attention_by_chunk, chunk(2, 0)), Some(u32::MAX));
    assert_eq!(refreshed.spawn_cursor, 1);
}

#[test]
fn default_spawner_config_paces_and_bounds_work() {
    let config = LifeformSimulationConfig::default();
    assert_eq!(config.player_chunk_radius, [2, 1]);
    assert_eq!(config.machinery_chunk_radius, [1, 1]);
    assert_eq!(config.player_spawn_interval_nanos, 1_000_000_000);
    assert_eq!(config.machinery_refresh_interval_nanos, 250_000_000);
    assert_eq!(config.maximum_lifeforms, 128);
    assert_eq!(config.attention_per_lifeform, 24);
    assert_eq!(config.minimum_hostile_attention, 32);
}

#[test]
fn intervals_report_once_and_keep_the_remainder() {
    let mut accumulator = 0;
    assert_eq!(interval_elapsed(&mut accumulator, 400, 1_000), None);
    assert_eq!(accumulator, 400);
    assert_eq!(interval_elapsed(&mut accumulator, 700, 1_000), Some(1_000));
    assert_eq!(accumulator, 100);
    assert_eq!(interval_elapsed(&mut accumulator, 25, 0), Some(25));
    assert_eq!(accumulator, 100);
}

#[test]
fn attention_limits_population_by_started_shares() {
    assert_eq!(attention_population_limit(0, 24, 128), 0);
    assert_eq!(attention_population_limit(1, 24, 128), 1);
    assert_eq!(attention_population_limit(25, 24, 128), 2);
    assert_eq!(attention_population_limit(10_000, 24, 128), 128);
    assert_eq!(attention_population_limit(5, 0, 3), 3);
}

#[test]
fn chunk_rectangles_and_distances() {
    let player = ChunkRect { minimum: chunk(2, 2), maximum: chunk(4, 3) };
    assert!(chunk_rects_intersect(chunk(0, 0), chunk(2, 2), player));
    assert!(!chunk_rects_intersect(chunk(5, 0), chunk(6, 9), player));
    assert_eq!(chunk_distance_from_rect(chunk(3, 3), chunk(2, 2), chunk(4, 3)), 0);
    assert_eq!(chunk_distance_from_rect(chunk(0, 3), chunk(2, 2), chunk(4, 3)), 2);
    assert_eq!(chunk_distance_from_rect(chunk(5, 9), chunk(2, 2), chunk(4, 3)), 6);
    assert!(player.contains(chunk(4, 2)));
    assert!(!player.contains(chunk(5, 2)));
    assert_eq!(player.len(), 6);
    assert_eq!(player.at(4), chunk(3, 3));
}

#[test]
fn spawn_hash_is_deterministic() {
    assert_eq!(spawn_hash(7, 3, chunk(2, 5), 1), 2_628_575_263_408_452_408);
    assert_eq!(spawn_hash(0, 0, chunk(0, 0), 0), 0);
}

#[test]
fn spawns_are_weighted_among_kinds_eligible_for_the_biome_and_attention() {
    let rules = [
        LifeformSpawnRule {
            id: LifeformId::WALKER(),
            spawn_biomes: vec![BiomeId::NORMAL],
            minimum_spawn_attention: 0,
            spawn_weight: 3,
        },
        LifeformSpawnRule {
            id: LifeformId::GLOWGNAT(),
            spawn_biomes: vec![BiomeId::NORMAL, BiomeId::GLOWING_CRYSTAL],
            minimum_spawn_attention: 48,
            spawn_weight: 1,
        },
    ];
    assert_eq!(select_spawn(&rules, BiomeId::NORMAL, 10, 3 << 53), Some(LifeformId::WALKER()));
    assert_eq!(select_spawn(&rules, BiomeId::NORMAL, 48, 0), Some(LifeformId::WALKER()));
    assert_eq!(select_spawn(&rules, BiomeId::NORMAL, 48, 3 << 53), Some(LifeformId::GLOWGNAT()));
    assert_eq!(select_spawn(&rules, BiomeId::GLOWING_CRYSTAL, 10, 0), None);
    assert_eq!(select_spawn(&rules, BiomeId::GLOWING_CRYSTAL, 60, 7), Some(LifeformId::GLOWGNAT()));
    assert_eq!(select_spawn(&[], BiomeId::NORMAL, 60, 7), None);
}

#[test]
fn spawn_pressure_needs_attention_and_is_certain_at_the_guaranteed_level() {
    let mut sequence = 41;
    assert!(!spawn_pressure_succeeds(&mut sequence, 64, 9, chunk(1, 2), 0));
    assert_eq!(sequence, 41);
    assert!(spawn_pressure_succeeds(&mut sequence, 64, 9, chunk(1, 2), 64));
    assert_eq!(sequence, 42);
    assert!(spawn_pressure_succeeds(&mut sequence, 0, 9, chunk(1, 2), 1));
    assert_eq!(sequence, 43);
    let mut wrapping = u64::MAX;
    let expected = spawn_hash(3, u64::MAX, chunk(0, 0), u64::MAX) % 10 < 5;
    assert_eq!(spawn_pressure_succeeds(&mut wrapping, 10, 3, chunk(0, 0), 5), expected);
    assert_eq!(wrapping, 0);
}

#[test]
fn a_spawn_round_visits_its_chunks_from_the_cursor() {
    let round = deep_tek::start_spawn_round(2, 3, 2, 0, 0, 5, 10);
    let (round, request) = deep_tek::spawn_round_step(round, 0);
    assert_eq!(request, Some((2, 5)));
    let (round, request) = deep_tek::spawn_round_step(round, 3);
    assert_eq!(request, Some((0, 2)));
    let (round, request) = deep_tek::spawn_round_step(round, 2);
    assert_eq!(request, None);
    assert!(round.done);
    assert!(!round.capped);
    assert_eq!(round.checked, 2);
    assert_eq!(round.population, 5);
    assert_eq!(round.cursor, 1);
}

#[test]
fn a_spawn_round_stops_at_the_population_maximum_and_after_its_checks() {
    let round = deep_tek::start_spawn_round(0, 4, 3, 8, 0, 6, 10);
    let (round, request) = deep_tek::spawn_round_step(round, 0);
    assert_eq!(request, Some((0, 6)));
    let (round, request) = deep_tek::spawn_round_step(round, 2);
    assert_eq!(request, None);
    assert!(round.capped);
    assert_eq!(round.cursor, 3);

    let quiet = deep_tek::start_spawn_round(1, 2, 5, 0, 0, 4, 10);
    let (quiet, first) = deep_tek::spawn_round_step(quiet, 0);
    assert_eq!(first, Some((1, 4)));
    let (quiet, second) = deep_tek::spawn_round_step(quiet, 0);
    assert_eq!(second, Some((0, 4)));
    let (quiet, end) = deep_tek::spawn_round_step(quiet, 0);
    assert_eq!(end, None);
    assert!(!quiet.capped);
    assert_eq!(quiet.cursor, 1);
}

#[test]
fn a_spawn_round_stops_when_the_area_limit_is_reached() {
    let round = deep_tek::start_spawn_round(0, 3, 3, 0, 0, 4, 10);
    let (round, request) = deep_tek::spawn_round_step(round, 0);
    assert_eq!(request, Some((0, 4)));
    let (round, request) = deep_tek::spawn_round_step(round, 4);
    assert_eq!(request, None);
    assert!(round.capped);
    assert_eq!(round.checked, 1);
    assert_eq!(round.cursor, 0);
}

#[test]
fn a_stale_spawn_cursor_is_taken_around_the_ring() {
    let round = deep_tek::start_spawn_round(7, 3, 2, 0, 0, 5, 10);
    assert_eq!(round.cursor, 1);
    let (_, handed) = deep_tek::spawn_round_step(round, 0);
    assert_eq!(handed, Some((1, 5)));
}
