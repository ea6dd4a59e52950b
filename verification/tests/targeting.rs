use deep_tek::text::push_decimal;
use deep_tek::turret::{TargetPriority, TurretKind, effective_target_priority};
use deep_tek::union_find::UnionFind;
use deep_tek::use_item::{
    ItemTargetStatus, ItemUseResult, furniture_anchor_from_target, valid_target_or_result,
};
use deep_tek::{FurnitureObject, SpecialistBonuses, SpecialistId, TilePos};

#[test]
fn turret_families_follow_their_furniture() {
    assert_eq!(TurretKind::from_object_type(FurnitureObject::TURRET), Some(TurretKind::Energy));
    assert_eq!(
        TurretKind::from_object_type(FurnitureObject::AMMO_TURRET),
        Some(TurretKind::Ammunition)
    );
    assert_eq!(
        TurretKind::from_object_type(FurnitureObject::DIRECTIONAL_SENTRY),
        Some(TurretKind::Directional)
    );
    assert_eq!(TurretKind::from_object_type(FurnitureObject::CHEST), None);
}

#[test]
fn target_priority_needs_advanced_targeting() {
    let none = SpecialistBonuses::from_ids(&[]);
    let security = SpecialistBonuses::from_ids(&[SpecialistId::SECURITY_OFFICER()]);
    assert!(security.advanced_turret_targeting());
    assert_eq!(
        effective_target_priority(TargetPriority::Weakest, none),
        TargetPriority::Closest
    );
    assert_eq!(
        effective_target_priority(TargetPriority::Furthest, security),
        TargetPriority::Furthest
    );
}

#[test]
fn item_targets_explain_why_they_cannot_be_used() {
    let tile = TilePos::new(4, 9);
    assert_eq!(valid_target_or_result(ItemTargetStatus::Valid(tile)), Ok(tile));
    assert_eq!(
        valid_target_or_result(ItemTargetStatus::OutOfReach(tile)),
        Err(ItemUseResult::OutOfReach)
    );
    assert_eq!(
        valid_target_or_result(ItemTargetStatus::Blocked(tile)),
        Err(ItemUseResult::Blocked)
    );
    assert_eq!(
        valid_target_or_result(ItemTargetStatus::NotTargeted),
        Err(ItemUseResult::Blocked)
    );
}

#[test]
fn furniture_rises_from_the_aimed_bottom_left_tile() {
    assert_eq!(
        furniture_anchor_from_target(FurnitureObject::LASER_BORE, TilePos::new(7, 10)),
        Some(TilePos::new(7, 8))
    );
    assert_eq!(
        furniture_anchor_from_target(FurnitureObject::CHEST, TilePos::new(0, 1)),
        Some(TilePos::new(0, 0))
    );
    assert_eq!(
        furniture_anchor_from_target(FurnitureObject::LASER_BORE, TilePos::new(7, 1)),
        None
    );
    assert_eq!(
        furniture_anchor_from_target(FurnitureObject::ROPE, TilePos::new(3, 0)),
        Some(TilePos::new(3, 0))
    );
}

#[test]
fn joined_elements_share_a_representative() {
    let mut sets = UnionFind::new(6);
    for index in 0..6 {
        assert_eq!(sets.root(index), index);
    }
    sets.join(0, 1);
    sets.join(2, 3);
    sets.join(1, 3);
    let root = sets.root(0);
    assert_eq!(sets.root(1), root);
    assert_eq!(sets.root(2), root);
    assert_eq!(sets.root(3), root);
    assert_ne!(sets.root(4), root);
    assert_ne!(sets.root(4), sets.root(5));
}

#[test]
fn decimals_are_written_digit_by_digit() {
    let mut text = String::from("x=");
    push_decimal(&mut text, 0);
    push_decimal(&mut text, 1_204);
    assert_eq!(text, "x=01204");
}
