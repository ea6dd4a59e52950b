use deep_tek::{
    BiomeId, HappinessFactor, happiness_report, BUILT_IN_SPECIALISTS, FurnitureObject, HouseRequirements, ObjectId, RecruitSpecialistError,
    SpecialistBonus, SpecialistBonuses, SpecialistId, SpecialistRecord, TilePos, World,
    assess_bed, assess_room, recruit_specialist, specialist_definition,
};

const STONE: u16 = 2;
const STONE_WALL: u16 = 1;
const LIGHT: u16 = 4;

fn walled_room(world: &mut World, left: u32, top: u32, right: u32, bottom: u32) {
    for y in top..=bottom {
        for x in left..=right {
            let boundary = x == left || x == right || y == top || y == bottom;
            assert!(world.set_foreground_tile(x, y, if boundary { STONE } else { 0 }));
            assert!(world.set_background_tile(x, y, STONE_WALL));
        }
    }
}

fn house() -> (World, ObjectId) {
    let mut world = World::empty(20, 15, 4).unwrap();
    walled_room(&mut world, 2, 2, 12, 11);
    for y in 8..=10 {
        assert!(world.set_foreground_tile(2, y, 0));
    }
    assert!(world.set_foreground_tile(8, 2, LIGHT));
    world.place_furniture(FurnitureObject::DOOR, TilePos::new(2, 8)).unwrap();
    let terminal = world
        .place_furniture(FurnitureObject::PROCUREMENT_TERMINAL, TilePos::new(6, 9))
        .unwrap();
    world.place_furniture(FurnitureObject::BED, TilePos::new(9, 10)).unwrap();
    (world, terminal)
}

fn furnished_house() -> (World, ObjectId) {
    let mut world = World::empty(16, 14, 1).unwrap();
    walled_room(&mut world, 2, 2, 11, 10);
    for y in 7..=9 {
        assert!(world.set_foreground_tile(2, y, 0));
    }
    assert!(world.set_foreground_tile(7, 2, LIGHT));
    world.place_furniture(FurnitureObject::DOOR, TilePos::new(2, 7)).unwrap();
    let terminal = world
        .place_furniture(FurnitureObject::PROCUREMENT_TERMINAL, TilePos::new(6, 8))
        .unwrap();
    world.place_furniture(FurnitureObject::BED, TilePos::new(8, 9)).unwrap();
    (world, terminal)
}

#[test]
fn every_specialist_exposes_bonuses() {
    for definition in BUILT_IN_SPECIALISTS() {
        assert!(!definition.bonuses.is_empty());
    }
}

#[test]
fn a_specialist_can_only_be_recruited_once() {
    let (mut world, terminal) = house();
    assert_eq!(
        recruit_specialist(&mut world, terminal, SpecialistId::ENGINEER(), [0, 0]),
        Ok(())
    );
    assert_eq!(
        recruit_specialist(&mut world, terminal, SpecialistId::ENGINEER(), [0, 0]),
        Err(RecruitSpecialistError::AlreadyRecruited)
    );
    assert_eq!(world.specialists().len(), 1);
}

#[test]
fn recruited_specialists_combine_their_world_bonuses() {
    let (mut world, terminal) = house();
    for id in [
        SpecialistId::DRILL_ENGINEER(),
        SpecialistId::LOGISTICS_ENGINEER(),
        SpecialistId::SECURITY_OFFICER(),
    ] {
        recruit_specialist(&mut world, terminal, id, [0, 0]).unwrap();
    }

    let bonuses = world.specialist_bonuses();
    assert_eq!(bonuses.drill_speed_percent(), 150);
    assert_eq!(bonuses.drill_depth_tiles(), 80);
    assert_eq!(bonuses.turret_damage_percent(), 125);
    assert_eq!(bonuses.turret_fire_rate_percent(), 125);
    assert!(bonuses.advanced_turret_targeting());
    assert_eq!(bonuses.conveyor_speed_percent(), 150);
    assert_eq!(bonuses.lift_speed_percent(), 125);
    assert_eq!(bonuses.processing_speed_percent(), 125);
}

#[test]
fn enclosed_furnished_house_is_valid() {
    let (world, terminal) = furnished_house();
    let room = assess_room(&world, terminal).unwrap();
    assert!(room.is_valid());
    assert!(!room.standing_cells().is_empty());
    assert_eq!(room.interior_cells()[0], TilePos::new(6, 8));
}

#[test]
fn missing_door_and_background_are_reported_independently() {
    let (mut world, terminal) = furnished_house();
    let door = world.object_at(TilePos::new(2, 8)).unwrap().id();
    assert!(world.remove_object(door).is_some());
    assert!(world.set_background_tile(5, 5, 0));
    let requirements = assess_room(&world, terminal).unwrap().requirements();
    assert!(!requirements.enclosed);
    assert!(!requirements.door);
    assert!(!requirements.background_walls);
}

#[test]
fn a_bed_is_required_and_can_assess_its_own_room() {
    let (mut world, terminal) = furnished_house();
    let bed = world.object_at(TilePos::new(8, 9)).unwrap().id();
    assert!(assess_bed(&world, bed).is_some_and(HouseRequirements::is_valid));

    world.remove_object(bed).unwrap();
    let requirements = assess_room(&world, terminal).unwrap().requirements();
    assert!(!requirements.bed);
    assert_eq!(requirements.missing_labels(), vec!["a bed"]);
}

#[test]
fn unsuitable_or_missing_homes_refuse_recruits() {
    let (mut world, terminal) = house();
    assert_eq!(
        recruit_specialist(&mut world, terminal, SpecialistId::new(9), [0, 0]),
        Err(RecruitSpecialistError::UnknownSpecialist)
    );
    let bed = world.object_at(TilePos::new(9, 10)).unwrap().id();
    assert_eq!(
        recruit_specialist(&mut world, bed, SpecialistId::GEOLOGIST(), [0, 0]),
        Err(RecruitSpecialistError::InvalidTerminal)
    );
    world.remove_object(bed).unwrap();
    assert_eq!(
        recruit_specialist(&mut world, terminal, SpecialistId::GEOLOGIST(), [0, 0]),
        Err(RecruitSpecialistError::UnsuitableHouse)
    );
    assert!(world.specialists().is_empty());
}

#[test]
fn a_lone_terminal_has_an_open_room() {
    let mut world = World::empty(8, 8, 0).unwrap();
    let terminal = world
        .place_furniture(FurnitureObject::PROCUREMENT_TERMINAL, TilePos::new(3, 3))
        .unwrap();
    let requirements = assess_room(&world, terminal).unwrap().requirements();
    assert!(!requirements.enclosed);
    assert!(!requirements.background_walls);
    assert_eq!(
        requirements.missing_labels(),
        vec![
            "closed walls",
            "background walls",
            "a door",
            "a light source",
            "a bed",
            "more interior space"
        ]
    );
    assert_eq!(assess_room(&world, ObjectId::new(77)), None);
}

#[test]
fn orphaned_specialists_are_pruned_with_their_terminal() {
    let (mut world, terminal) = house();
    recruit_specialist(&mut world, terminal, SpecialistId::GEOLOGIST(), [1, 2]).unwrap();
    assert_eq!(world.prune_orphaned_specialists(), 0);
    assert_eq!(world.specialist(SpecialistId::GEOLOGIST()).unwrap().home_terminal(), terminal);
    world.remove_object(terminal).unwrap();
    assert_eq!(world.prune_orphaned_specialists(), 1);
    assert!(world.specialists().is_empty());
}

#[test]
fn bonus_labels_and_descriptions_read_naturally() {
    assert_eq!(SpecialistBonus::DrillSpeedPercent(50).label(), "DRILL SPEED");
    assert_eq!(
        SpecialistBonus::DrillSpeedPercent(50).description(),
        "+50% damage per drill cycle"
    );
    assert_eq!(
        SpecialistBonus::DrillDepthTiles(80).description(),
        "+80 tiles maximum drilling range"
    );
    assert_eq!(
        SpecialistBonus::AdvancedTurretTargeting.description(),
        "Unlocks weakest, strongest, and furthest priorities"
    );
    assert_eq!(
        SpecialistBonus::ProcessingSpeedPercent(125).description(),
        "+125% machine throughput"
    );
}

#[test]
fn unknown_ids_add_nothing_and_totals_saturate() {
    let none = SpecialistBonuses::from_ids(&[SpecialistId::new(0), SpecialistId::new(40)]);
    assert_eq!(none, SpecialistBonuses::default());
    let many = vec![SpecialistId::ENGINEER(); 2_000];
    let bonuses = SpecialistBonuses::from_ids(&many);
    assert_eq!(bonuses.drill_speed_percent(), u16::MAX);
    assert_eq!(bonuses.drill_depth_tiles(), 160_000);
    assert_eq!(bonuses.turret_damage_percent(), 100);
}

#[test]
fn definitions_match_their_identifiers() {
    let definition = specialist_definition(SpecialistId::QUARTERMASTER()).unwrap();
    assert_eq!(definition.name, "Rook Hale");
    assert_eq!(definition.role, "Security Officer");
    assert!(specialist_definition(SpecialistId::new(4)).is_none());
}

#[test]
fn happiness_is_capped_at_one_hundred() {
    let mut record = SpecialistRecord::new(SpecialistId::ENGINEER(), ObjectId::new(3), [7, 9]);
    assert_eq!(record.happiness(), 100);
    record.set_happiness(250);
    assert_eq!(record.happiness(), 100);
    record.set_happiness(42);
    assert_eq!(record.happiness(), 42);
    assert_eq!(record.position_bits(), [7, 9]);
}

#[test]
fn happiness_starts_full_and_loses_noise_and_biome_penalties() {
    let unsuitable = happiness_report(false, SpecialistId::ENGINEER(), &[0, 0], None);
    assert_eq!(unsuitable.score, 0);
    assert_eq!(
        unsuitable.factors,
        vec![HappinessFactor { label: "Unsuitable house", delta: -100 }]
    );

    let unknown = happiness_report(true, SpecialistId::new(9), &[], None);
    assert_eq!(unknown.score, 0);
    assert!(unknown.factors.is_empty());

    let content = happiness_report(true, SpecialistId::ENGINEER(), &[0, 0], Some(BiomeId::GLOWING_CRYSTAL));
    assert_eq!(content.score, 100);
    assert!(content.factors.is_empty());

    let noisy = happiness_report(true, SpecialistId::LOGISTICS_ENGINEER(), &[30, 0], Some(BiomeId::GLOWING_CRYSTAL));
    assert_eq!(noisy.score, 20);
    assert_eq!(
        noisy.factors,
        vec![
            HappinessFactor { label: "Nearby machinery noise", delta: -60 },
            HappinessFactor { label: "Unpreferred biome", delta: -20 },
        ]
    );

    let miserable = happiness_report(true, SpecialistId::SECURITY_OFFICER(), &[80, 0], None);
    assert_eq!(miserable.score, 0);
    assert_eq!(miserable.factors[0].delta, -100);
    assert_eq!(miserable.factors[1].label, "Unpreferred biome");
}

#[test]
fn active_drills_reduce_happiness() {
    let quiet = happiness_report(true, SpecialistId::GEOLOGIST(), &[0, 0], Some(BiomeId::NORMAL)).score;
    let noisy = happiness_report(true, SpecialistId::GEOLOGIST(), &[3, 0], Some(BiomeId::NORMAL)).score;
    assert!(noisy < quiet);
}

#[test]
fn specialists_prefer_definition_selected_biomes() {
    let normal = happiness_report(true, SpecialistId::DRILL_ENGINEER(), &[0, 0], Some(BiomeId::NORMAL));
    assert!(
        normal
            .factors
            .iter()
            .any(|factor| factor.label == "Unpreferred biome" && factor.delta == -20)
    );
    let preferred =
        happiness_report(true, SpecialistId::DRILL_ENGINEER(), &[0, 0], Some(BiomeId::GLOWING_CRYSTAL));
    assert_eq!(preferred.score, normal.score + 20);
    assert!(preferred.factors.iter().all(|factor| factor.label != "Unpreferred biome"));
}
