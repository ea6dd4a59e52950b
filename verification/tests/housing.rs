use deep_tek::housing::LIGHT_TILE;
use deep_tek::{
    FurnitureObject, ObjectId, RecruitSpecialistError, SpecialistId, TilePos, World, assess_bed,
    assess_room, recruit_specialist,
};

const STONE: u16 = 2;
const WALL: u16 = 7;

/// A stone box from (2, 2) to (9, 7) with a 6 by 4 interior, a door in the
/// left wall, a light block in the roof, background walls, a bed and a
/// procurement terminal.
fn furnished_room() -> (World, ObjectId, ObjectId) {
    let mut world = World::empty(20, 12, 3).unwrap();
    for x in 2..=9 {
        assert!(world.set_foreground_tile(x, 2, STONE));
        assert!(world.set_foreground_tile(x, 7, STONE));
    }
    for y in 3..=6 {
        assert!(world.set_foreground_tile(2, y, STONE));
        assert!(world.set_foreground_tile(9, y, STONE));
    }
    for y in 3..=6 {
        for x in 3..=8 {
            assert!(world.set_background_tile(x, y, WALL));
        }
    }
    assert!(world.set_foreground_tile(5, 2, LIGHT_TILE));
    for y in 4..=6 {
        assert!(world.set_foreground_tile(2, y, 0));
    }
    world.place_furniture(FurnitureObject::DOOR, TilePos::new(2, 4)).unwrap();
    let bed = world.place_furniture(FurnitureObject::BED, TilePos::new(3, 6)).unwrap();
    let terminal = world
        .place_furniture(FurnitureObject::PROCUREMENT_TERMINAL, TilePos::new(6, 5))
        .unwrap();
    (world, terminal, bed)
}

#[test]
fn furnished_enclosed_room_is_a_valid_home() {
    let (world, terminal, bed) = furnished_room();
    let room = assess_room(&world, terminal).unwrap();
    assert_eq!(room.terminal(), terminal);
    assert!(room.requirements().is_valid());
    assert!(room.requirements().missing_labels().is_empty());
    assert_eq!(room.interior_cells().len(), 24);
    assert_eq!(room.interior_cells()[0], TilePos::new(6, 5));
    assert!(room.standing_cells().iter().all(|cell| cell.y == 6));
    assert!(assess_bed(&world, bed).unwrap().is_valid());
    assert!(assess_room(&world, bed).is_none());
    assert!(assess_bed(&world, terminal).is_none());
}

#[test]
fn missing_walls_light_and_background_are_reported() {
    let (mut world, terminal, _) = furnished_room();
    assert!(world.set_foreground_tile(5, 2, STONE));
    assert!(world.set_background_tile(4, 4, 0));
    let requirements = assess_room(&world, terminal).unwrap().requirements();
    assert!(requirements.enclosed);
    assert!(!requirements.background_walls);
    assert!(!requirements.light);
    assert_eq!(
        requirements.missing_labels(),
        vec!["background walls", "a light source"]
    );

    assert!(world.set_foreground_tile(9, 4, 0));
    let requirements = assess_room(&world, terminal).unwrap().requirements();
    assert!(!requirements.enclosed);
    assert_eq!(requirements.missing_labels()[0], "closed walls");
}

#[test]
fn recruiting_checks_identity_terminal_and_home() {
    let (mut world, terminal, bed) = furnished_room();
    assert_eq!(
        recruit_specialist(&mut world, terminal, SpecialistId::new(999), [0, 0]),
        Err(RecruitSpecialistError::UnknownSpecialist)
    );
    assert_eq!(
        recruit_specialist(&mut world, bed, SpecialistId::ENGINEER(), [0, 0]),
        Err(RecruitSpecialistError::InvalidTerminal)
    );
    assert_eq!(
        recruit_specialist(&mut world, terminal, SpecialistId::ENGINEER(), [1, 2]),
        Ok(())
    );
    assert_eq!(world.specialists().len(), 1);
    assert_eq!(world.specialist(SpecialistId::ENGINEER()).unwrap().home_terminal(), terminal);
    assert_eq!(
        recruit_specialist(&mut world, terminal, SpecialistId::ENGINEER(), [0, 0]),
        Err(RecruitSpecialistError::AlreadyRecruited)
    );
    assert!(world.set_foreground_tile(5, 2, STONE));
    assert_eq!(
        recruit_specialist(&mut world, terminal, SpecialistId::GEOLOGIST(), [0, 0]),
        Err(RecruitSpecialistError::UnsuitableHouse)
    );
    assert_eq!(world.specialists().len(), 1);
}

#[test]
fn room_cells_come_in_breadth_first_order() {
    let (world, terminal, _) = furnished_room();
    let room = assess_room(&world, terminal).unwrap();
    let expected = [
        TilePos::new(6, 5),
        TilePos::new(5, 5),
        TilePos::new(7, 5),
        TilePos::new(6, 4),
        TilePos::new(6, 6),
        TilePos::new(4, 5),
        TilePos::new(5, 4),
        TilePos::new(5, 6),
        TilePos::new(8, 5),
        TilePos::new(7, 4),
        TilePos::new(7, 6),
    ];
    assert_eq!(&room.interior_cells()[..expected.len()], &expected);
    let again = assess_room(&world, terminal).unwrap();
    assert_eq!(room.interior_cells(), again.interior_cells());
    assert_eq!(room.requirements(), again.requirements());
}
