use vstd::prelude::*;
use crate::specialists::SpecialistBonuses;
use crate::terrain::{FurnitureObject, ObjectTypeId};

verus! {

/// The three turret families.
#[derive(Clone, Copy, Debug, PartialEq, Eq, Structural)]
pub enum TurretKind {
    Energy,
    Ammunition,
    Directional,
}

impl TurretKind {
    pub open spec fn kind_of(object_type: ObjectTypeId) -> Option<TurretKind> {
        match object_type {
            FurnitureObject::TURRET => Some(TurretKind::Energy),
            FurnitureObject::AMMO_TURRET => Some(TurretKind::Ammunition),
            FurnitureObject::DIRECTIONAL_SENTRY => Some(TurretKind::Directional),
            _ => None,
        }
    }

    /// The family of a turret object; none for other furniture.
    pub fn from_object_type(object_type: ObjectTypeId) -> (kind: Option<TurretKind>)
        ensures
            kind == Self::kind_of(object_type),
    {
        match object_type {
            FurnitureObject::TURRET => Some(TurretKind::Energy),
            FurnitureObject::AMMO_TURRET => Some(TurretKind::Ammunition),
            FurnitureObject::DIRECTIONAL_SENTRY => Some(TurretKind::Directional),
            _ => None,
        }
    }
}

/// Which visible lifeform a turret aims at.
#[derive(Clone, Copy, Debug, Default, PartialEq, Eq, Structural)]
pub enum TargetPriority {
    #[default]
    Closest,
    Weakest,
    Strongest,
    Furthest,
}

/// The configured priority once advanced targeting is unlocked; closest
/// until then.
pub fn effective_target_priority(configured: TargetPriority, bonuses: SpecialistBonuses) -> (priority: TargetPriority)
    ensures
        priority == (if bonuses@.advanced_turret_targeting { configured } else { TargetPriority::Closest }),
{
    if bonuses.advanced_turret_targeting() {
        configured
    } else {
        TargetPriority::Closest
    }
}

} // verus!
