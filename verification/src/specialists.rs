use vstd::prelude::*;
use vstd::string::StringExecFns;
use crate::contracts::ContractCompany;
use crate::terrain::{BiomeId, ObjectId, TilePos};
use crate::text::{decimal, push_decimal};

verus! {

/// Identifier of a recruitable specialist.
#[derive(Clone, Copy, Debug, PartialEq, Eq, Hash, PartialOrd, Ord, Structural)]
pub struct SpecialistId(u16);

impl SpecialistId {
    pub closed spec fn spec_raw(self) -> u16 {
        self.0
    }

    pub fn new(value: u16) -> (id: Self)
        ensures
            id.spec_raw() == value,
    {
        SpecialistId(value)
    }

    #[verifier::when_used_as_spec(spec_raw)]
    pub fn raw(self) -> (value: u16)
        ensures
            value == self.spec_raw(),
    {
        self.0
    }

    #[allow(non_snake_case)]
    pub fn ENGINEER() -> (id: Self)
        ensures
            id.spec_raw() == 1,
    {
        SpecialistId(1)
    }

    #[allow(non_snake_case)]
    pub fn GEOLOGIST() -> (id: Self)
        ensures
            id.spec_raw() == 2,
    {
        SpecialistId(2)
    }

    #[allow(non_snake_case)]
    pub fn QUARTERMASTER() -> (id: Self)
        ensures
            id.spec_raw() == 3,
    {
        SpecialistId(3)
    }

    /// The drill engineer is the engineer.
    #[allow(non_snake_case)]
    pub fn DRILL_ENGINEER() -> (id: Self)
        ensures
            id.spec_raw() == 1,
    {
        Self::ENGINEER()
    }

    /// The logistics engineer is the geologist.
    #[allow(non_snake_case)]
    pub fn LOGISTICS_ENGINEER() -> (id: Self)
        ensures
            id.spec_raw() == 2,
    {
        Self::GEOLOGIST()
    }

    /// The security officer is the quartermaster.
    #[allow(non_snake_case)]
    pub fn SECURITY_OFFICER() -> (id: Self)
        ensures
            id.spec_raw() == 3,
    {
        Self::QUARTERMASTER()
    }
}

pub proof fn lemma_specialist_id_raw(a: SpecialistId, b: SpecialistId)
    ensures
        (a.spec_raw() == b.spec_raw()) == (a == b),
{
}

/// What lowers a resident specialist's happiness.
#[derive(Clone, Debug, PartialEq, Eq)]
pub enum HappinessRule {
    NearbyNoise { radius_tiles: u16, penalty_per_noise: u8 },
    BiomePreference { preferred: Vec<BiomeId>, mismatch_penalty: u8 },
}

/// One improvement that a recruited specialist grants.
#[derive(Clone, Copy, Debug, PartialEq, Eq, Structural)]
pub enum SpecialistBonus {
    DrillSpeedPercent(u16),
    DrillDepthTiles(u32),
    TurretDamagePercent(u16),
    TurretFireRatePercent(u16),
    AdvancedTurretTargeting,
    ConveyorSpeedPercent(u16),
    LiftSpeedPercent(u16),
    ProcessingSpeedPercent(u16),
}

impl SpecialistBonus {
    pub open spec fn spec_label(self) -> &'static str {
        match self {
            SpecialistBonus::DrillSpeedPercent(_) => "DRILL SPEED",
            SpecialistBonus::DrillDepthTiles(_) => "DRILL DEPTH",
            SpecialistBonus::TurretDamagePercent(_) => "TURRET DAMAGE",
            SpecialistBonus::TurretFireRatePercent(_) => "TURRET FIRE RATE",
            SpecialistBonus::AdvancedTurretTargeting => "TARGETING MODES",
            SpecialistBonus::ConveyorSpeedPercent(_) => "CONVEYOR SPEED",
            SpecialistBonus::LiftSpeedPercent(_) => "CARGO LIFT SPEED",
            SpecialistBonus::ProcessingSpeedPercent(_) => "PROCESSING THROUGHPUT",
        }
    }

    /// The short heading of the bonus.
    pub fn label(self) -> (label: &'static str)
        ensures
            label == self.spec_label(),
    {
        match self {
            SpecialistBonus::DrillSpeedPercent(_) => "DRILL SPEED",
            SpecialistBonus::DrillDepthTiles(_) => "DRILL DEPTH",
            SpecialistBonus::TurretDamagePercent(_) => "TURRET DAMAGE",
            SpecialistBonus::TurretFireRatePercent(_) => "TURRET FIRE RATE",
            SpecialistBonus::AdvancedTurretTargeting => "TARGETING MODES",
            SpecialistBonus::ConveyorSpeedPercent(_) => "CONVEYOR SPEED",
            SpecialistBonus::LiftSpeedPercent(_) => "CARGO LIFT SPEED",
            SpecialistBonus::ProcessingSpeedPercent(_) => "PROCESSING THROUGHPUT",
        }
    }

    /// The explanation text: the amount after a plus sign, then its effect.
    pub open spec fn spec_description(self) -> Seq<char> {
        match self {
            SpecialistBonus::DrillSpeedPercent(p) => "+"@ + decimal(p as nat) + "% damage per drill cycle"@,
            SpecialistBonus::DrillDepthTiles(t) => "+"@ + decimal(t as nat) + " tiles maximum drilling range"@,
            SpecialistBonus::TurretDamagePercent(p) => "+"@ + decimal(p as nat) + "% projectile damage"@,
            SpecialistBonus::TurretFireRatePercent(p) => "+"@ + decimal(p as nat) + "% firing speed"@,
            SpecialistBonus::AdvancedTurretTargeting => "Unlocks weakest, strongest, and furthest priorities"@,
            SpecialistBonus::ConveyorSpeedPercent(p) => "+"@ + decimal(p as nat) + "% item transfer speed"@,
            SpecialistBonus::LiftSpeedPercent(p) => "+"@ + decimal(p as nat) + "% powered lift speed"@,
            SpecialistBonus::ProcessingSpeedPercent(p) => "+"@ + decimal(p as nat) + "% machine throughput"@,
        }
    }

    pub fn description(self) -> (text: String)
        ensures
            text@ == self.spec_description(),
    {
        let (amount, effect): (u64, &str) = match self {
            SpecialistBonus::DrillSpeedPercent(p) => (p as u64, "% damage per drill cycle"),
            SpecialistBonus::DrillDepthTiles(t) => (t as u64, " tiles maximum drilling range"),
            SpecialistBonus::TurretDamagePercent(p) => (p as u64, "% projectile damage"),
            SpecialistBonus::TurretFireRatePercent(p) => (p as u64, "% firing speed"),
            SpecialistBonus::AdvancedTurretTargeting => {
                return String::from_str("Unlocks weakest, strongest, and furthest priorities");
            },
            SpecialistBonus::ConveyorSpeedPercent(p) => (p as u64, "% item transfer speed"),
            SpecialistBonus::LiftSpeedPercent(p) => (p as u64, "% powered lift speed"),
            SpecialistBonus::ProcessingSpeedPercent(p) => (p as u64, "% machine throughput"),
        };
        let mut text = String::from_str("+");
        push_decimal(&mut text, amount);
        text.append(effect);
        text
    }
}

/// The combined bonus totals, in the units of the getters.
pub struct BonusTotals {
    pub drill_speed_percent: u16,
    pub drill_depth_tiles: u32,
    pub turret_damage_percent: u16,
    pub turret_fire_rate_percent: u16,
    pub advanced_turret_targeting: bool,
    pub conveyor_speed_percent: u16,
    pub lift_speed_percent: u16,
    pub processing_speed_percent: u16,
}

/// The totals with no specialist: every rate at its full hundred percent.
pub open spec fn base_totals() -> BonusTotals {
    BonusTotals {
        drill_speed_percent: 100,
        drill_depth_tiles: 0,
        turret_damage_percent: 100,
        turret_fire_rate_percent: 100,
        advanced_turret_targeting: false,
        conveyor_speed_percent: 100,
        lift_speed_percent: 100,
        processing_speed_percent: 100,
    }
}

pub open spec fn saturating_u16(value: int) -> u16 {
    if value > u16::MAX {
        u16::MAX
    } else {
        value as u16
    }
}

pub open spec fn saturating_u32(value: int) -> u32 {
    if value > u32::MAX {
        u32::MAX
    } else {
        value as u32
    }
}

/// One bonus added to the totals, each amount saturating at its type's limit.
pub open spec fn with_bonus(totals: BonusTotals, bonus: SpecialistBonus) -> BonusTotals {
    match bonus {
        SpecialistBonus::DrillSpeedPercent(p) => BonusTotals {
            drill_speed_percent: saturating_u16(totals.drill_speed_percent + p),
            ..totals
        },
        SpecialistBonus::DrillDepthTiles(t) => BonusTotals {
            drill_depth_tiles: saturating_u32(totals.drill_depth_tiles + t),
            ..totals
        },
        SpecialistBonus::TurretDamagePercent(p) => BonusTotals {
            turret_damage_percent: saturating_u16(totals.turret_damage_percent + p),
            ..totals
        },
        SpecialistBonus::TurretFireRatePercent(p) => BonusTotals {
            turret_fire_rate_percent: saturating_u16(totals.turret_fire_rate_percent + p),
            ..totals
        },
        SpecialistBonus::AdvancedTurretTargeting => BonusTotals {
            advanced_turret_targeting: true,
            ..totals
        },
        SpecialistBonus::ConveyorSpeedPercent(p) => BonusTotals {
            conveyor_speed_percent: saturating_u16(totals.conveyor_speed_percent + p),
            ..totals
        },
        SpecialistBonus::LiftSpeedPercent(p) => BonusTotals {
            lift_speed_percent: saturating_u16(totals.lift_speed_percent + p),
            ..totals
        },
        SpecialistBonus::ProcessingSpeedPercent(p) => BonusTotals {
            processing_speed_percent: saturating_u16(totals.processing_speed_percent + p),
            ..totals
        },
    }
}

/// The totals after each bonus in order.
pub open spec fn with_bonuses(totals: BonusTotals, bonuses: Seq<SpecialistBonus>) -> BonusTotals
    decreases bonuses.len(),
{
    if bonuses.len() == 0 {
        totals
    } else {
        with_bonuses(with_bonus(totals, bonuses[0]), bonuses.drop_first())
    }
}

/// The totals after the bonuses of each known specialist in order; unknown
/// identifiers add nothing.
pub open spec fn totals_for(totals: BonusTotals, ids: Seq<SpecialistId>) -> BonusTotals
    decreases ids.len(),
{
    if ids.len() == 0 {
        totals
    } else {
        let next = match bonus_table(ids[0].spec_raw()) {
            Some(bonuses) => with_bonuses(totals, bonuses),
            None => totals,
        };
        totals_for(next, ids.drop_first())
    }
}

/// The combined effect of the recruited specialists.
#[derive(Clone, Copy, Debug, PartialEq, Eq, Structural)]
pub struct SpecialistBonuses {
    drill_speed_percent: u16,
    drill_depth_tiles: u32,
    turret_damage_percent: u16,
    turret_fire_rate_percent: u16,
    advanced_turret_targeting: bool,
    conveyor_speed_percent: u16,
    lift_speed_percent: u16,
    processing_speed_percent: u16,
}

impl View for SpecialistBonuses {
    type V = BonusTotals;

    closed spec fn view(&self) -> BonusTotals {
        BonusTotals {
            drill_speed_percent: self.drill_speed_percent,
            drill_depth_tiles: self.drill_depth_tiles,
            turret_damage_percent: self.turret_damage_percent,
            turret_fire_rate_percent: self.turret_fire_rate_percent,
            advanced_turret_targeting: self.advanced_turret_targeting,
            conveyor_speed_percent: self.conveyor_speed_percent,
            lift_speed_percent: self.lift_speed_percent,
            processing_speed_percent: self.processing_speed_percent,
        }
    }
}

impl Default for SpecialistBonuses {
    fn default() -> (bonuses: Self)
        ensures
            bonuses@ == base_totals(),
    {
        SpecialistBonuses {
            drill_speed_percent: 100,
            drill_depth_tiles: 0,
            turret_damage_percent: 100,
            turret_fire_rate_percent: 100,
            advanced_turret_targeting: false,
            conveyor_speed_percent: 100,
            lift_speed_percent: 100,
            processing_speed_percent: 100,
        }
    }
}

impl SpecialistBonuses {
    /// The totals of the given specialists, each counted as often as listed.
    pub fn from_ids(ids: &[SpecialistId]) -> (bonuses: Self)
        ensures
            bonuses@ == totals_for(base_totals(), ids@),
    {
        let mut bonuses = Self::default();
        let mut index: usize = 0;
        assert(ids@.skip(0) =~= ids@);
        while index < ids.len()
            invariant
                index <= ids@.len(),
                totals_for(bonuses@, ids@.skip(index as int)) == totals_for(base_totals(), ids@),
            decreases ids@.len() - index,
        {
            proof {
                assert(ids@.skip(index as int).drop_first() =~= ids@.skip(index + 1));
            }
            if let Some(definition) = specialist_definition(ids[index]) {
                let mut bonus_index: usize = 0;
                let ghost start = bonuses@;
                assert(definition.bonuses@.skip(0) =~= definition.bonuses@);
                while bonus_index < definition.bonuses.len()
                    invariant
                        index < ids@.len(),
                        definition.id == ids@[index as int],
                        is_built_in_definition(definition),
                        totals_for(start, ids@.skip(index as int)) == totals_for(base_totals(), ids@),
                        bonus_index <= definition.bonuses@.len(),
                        with_bonuses(bonuses@, definition.bonuses@.skip(bonus_index as int))
                            == with_bonuses(start, definition.bonuses@),
                    decreases definition.bonuses@.len() - bonus_index,
                {
                    proof {
                        assert(definition.bonuses@.skip(bonus_index as int).drop_first()
                            =~= definition.bonuses@.skip(bonus_index + 1));
                    }
                    bonuses.apply(definition.bonuses[bonus_index]);
                    bonus_index = bonus_index + 1;
                }
                proof {
                    assert(definition.bonuses@.skip(bonus_index as int) =~= Seq::<SpecialistBonus>::empty());
                }
            }
            index = index + 1;
        }
        proof {
            assert(ids@.skip(index as int) =~= Seq::<SpecialistId>::empty());
        }
        bonuses
    }

    pub fn drill_speed_percent(self) -> (percent: u16)
        ensures
            percent == self@.drill_speed_percent,
    {
        self.drill_speed_percent
    }

    pub fn drill_depth_tiles(self) -> (tiles: u32)
        ensures
            tiles == self@.drill_depth_tiles,
    {
        self.drill_depth_tiles
    }

    pub fn turret_damage_percent(self) -> (percent: u16)
        ensures
            percent == self@.turret_damage_percent,
    {
        self.turret_damage_percent
    }

    pub fn turret_fire_rate_percent(self) -> (percent: u16)
        ensures
            percent == self@.turret_fire_rate_percent,
    {
        self.turret_fire_rate_percent
    }

    pub fn advanced_turret_targeting(self) -> (unlocked: bool)
        ensures
            unlocked == self@.advanced_turret_targeting,
    {
        self.advanced_turret_targeting
    }

    pub fn conveyor_speed_percent(self) -> (percent: u16)
        ensures
            percent == self@.conveyor_speed_percent,
    {
        self.conveyor_speed_percent
    }

    pub fn lift_speed_percent(self) -> (percent: u16)
        ensures
            percent == self@.lift_speed_percent,
    {
        self.lift_speed_percent
    }

    pub fn processing_speed_percent(self) -> (percent: u16)
        ensures
            percent == self@.processing_speed_percent,
    {
        self.processing_speed_percent
    }

    fn apply(&mut self, bonus: SpecialistBonus)
        ensures
            final(self)@ == with_bonus(old(self)@, bonus),
    {
        match bonus {
            SpecialistBonus::DrillSpeedPercent(percent) => {
                self.drill_speed_percent = self.drill_speed_percent.saturating_add(percent);
            },
            SpecialistBonus::DrillDepthTiles(tiles) => {
                self.drill_depth_tiles = self.drill_depth_tiles.saturating_add(tiles);
            },
            SpecialistBonus::TurretDamagePercent(percent) => {
                self.turret_damage_percent = self.turret_damage_percent.saturating_add(percent);
            },
            SpecialistBonus::TurretFireRatePercent(percent) => {
                self.turret_fire_rate_percent = self.turret_fire_rate_percent.saturating_add(percent);
            },
            SpecialistBonus::AdvancedTurretTargeting => {
                self.advanced_turret_targeting = true;
            },
            SpecialistBonus::ConveyorSpeedPercent(percent) => {
                self.conveyor_speed_percent = self.conveyor_speed_percent.saturating_add(percent);
            },
            SpecialistBonus::LiftSpeedPercent(percent) => {
                self.lift_speed_percent = self.lift_speed_percent.saturating_add(percent);
            },
            SpecialistBonus::ProcessingSpeedPercent(percent) => {
                self.processing_speed_percent = self.processing_speed_percent.saturating_add(percent);
            },
        }
    }
}

/// The bonuses of the built-in specialist with the given identifier.
pub open spec fn bonus_table(raw: u16) -> Option<Seq<SpecialistBonus>> {
    if raw == 1 {
        Some(seq![SpecialistBonus::DrillSpeedPercent(50), SpecialistBonus::DrillDepthTiles(80)])
    } else if raw == 2 {
        Some(
            seq![
                SpecialistBonus::ConveyorSpeedPercent(50),
                SpecialistBonus::LiftSpeedPercent(25),
                SpecialistBonus::ProcessingSpeedPercent(25),
            ],
        )
    } else if raw == 3 {
        Some(
            seq![
                SpecialistBonus::AdvancedTurretTargeting,
                SpecialistBonus::TurretDamagePercent(25),
                SpecialistBonus::TurretFireRatePercent(25),
            ],
        )
    } else {
        None
    }
}

pub open spec fn company_table(raw: u16) -> ContractCompany {
    if raw == 1 {
        ContractCompany::DeepTekIndustries
    } else if raw == 2 {
        ContractCompany::AstraSurveyCorp
    } else {
        ContractCompany::VanguardDefence
    }
}

pub open spec fn name_table(raw: u16) -> &'static str {
    if raw == 1 {
        "Mara Venn"
    } else if raw == 2 {
        "Dr. Ivo Senn"
    } else {
        "Rook Hale"
    }
}

pub open spec fn role_table(raw: u16) -> &'static str {
    if raw == 1 {
        "Drill Engineer"
    } else if raw == 2 {
        "Logistics Engineer"
    } else {
        "Security Officer"
    }
}

pub open spec fn preferred_biomes_table(raw: u16) -> Seq<BiomeId> {
    if raw == 1 {
        seq![BiomeId::GLOWING_CRYSTAL]
    } else {
        seq![BiomeId::NORMAL]
    }
}

/// Everything fixed about one recruitable specialist.
#[derive(Clone, Debug, PartialEq)]
pub struct SpecialistDefinition {
    pub id: SpecialistId,
    pub name: &'static str,
    pub role: &'static str,
    pub company: ContractCompany,
    pub description: &'static str,
    pub greeting: &'static str,
    pub preferred_biomes: Vec<BiomeId>,
    pub bonuses: Vec<SpecialistBonus>,
    pub happiness_rules: Vec<HappinessRule>,
}

/// Whether a definition is the built-in one for its identifier.
pub open spec fn is_built_in_definition(definition: SpecialistDefinition) -> bool {
    &&& bonus_table(definition.id.spec_raw()) is Some
    &&& definition.bonuses@ == bonus_table(definition.id.spec_raw())->0
    &&& definition.company == company_table(definition.id.spec_raw())
    &&& definition.name == name_table(definition.id.spec_raw())
    &&& definition.role == role_table(definition.id.spec_raw())
    &&& definition.preferred_biomes@ == preferred_biomes_table(definition.id.spec_raw())
    &&& built_in_rules(definition.happiness_rules@, definition.id.spec_raw())
}

/// Radius and penalty per noise source of a built-in specialist's noise
/// rule.
pub open spec fn noise_rule_table(raw: u16) -> (u16, u8) {
    if raw == 1 {
        (48, 1)
    } else if raw == 2 {
        (48, 2)
    } else {
        (40, 2)
    }
}

/// The two happiness rules of a built-in specialist: machinery noise, then
/// the biome preference.
pub open spec fn built_in_rules(rules: Seq<HappinessRule>, raw: u16) -> bool {
    &&& rules.len() == 2
    &&& rules[0] == HappinessRule::NearbyNoise {
        radius_tiles: noise_rule_table(raw).0,
        penalty_per_noise: noise_rule_table(raw).1,
    }
    &&& rules[1] matches HappinessRule::BiomePreference { preferred, mismatch_penalty }
    &&& preferred@ == preferred_biomes_table(raw)
    &&& mismatch_penalty == 20
}

fn engineer() -> (definition: SpecialistDefinition)
    ensures
        definition.id.spec_raw() == 1,
        is_built_in_definition(definition),
{
    let definition = SpecialistDefinition {
        id: SpecialistId::ENGINEER(),
        name: "Mara Venn",
        role: "Drill Engineer",
        company: ContractCompany::DeepTekIndustries,
        description: "A drilling specialist who improves excavation speed and the reach of every bore in the world.",
        greeting: "Every stratum has a weak point. Give the drills enough power and I will help them find it faster.",
        preferred_biomes: vec![BiomeId::GLOWING_CRYSTAL],
        bonuses: vec![SpecialistBonus::DrillSpeedPercent(50), SpecialistBonus::DrillDepthTiles(80)],
        happiness_rules: vec![
            HappinessRule::NearbyNoise { radius_tiles: 48, penalty_per_noise: 1 },
            HappinessRule::BiomePreference {
                preferred: vec![BiomeId::GLOWING_CRYSTAL],
                mismatch_penalty: 20,
            },
        ],
    };
    assert(definition.bonuses@ =~= bonus_table(1)->0);
    assert(definition.preferred_biomes@ =~= preferred_biomes_table(1));
    proof {
        let rules = definition.happiness_rules@;
        if let HappinessRule::BiomePreference { preferred, .. } = rules[1] {
            assert(preferred@ =~= preferred_biomes_table(1));
        }
    }
    definition
}

fn logistics_engineer() -> (definition: SpecialistDefinition)
    ensures
        definition.id.spec_raw() == 2,
        is_built_in_definition(definition),
{
    let definition = SpecialistDefinition {
        id: SpecialistId::GEOLOGIST(),
        name: "Dr. Ivo Senn",
        role: "Logistics Engineer",
        company: ContractCompany::AstraSurveyCorp,
        description: "An industrial logistics engineer who accelerates conveyors, cargo lifts, and processing machinery.",
        greeting: "Throughput is a question of flow. Let me tune the routes and we will keep every machine supplied.",
        preferred_biomes: vec![BiomeId::NORMAL],
        bonuses: vec![
            SpecialistBonus::ConveyorSpeedPercent(50),
            SpecialistBonus::LiftSpeedPercent(25),
            SpecialistBonus::ProcessingSpeedPercent(25),
        ],
        happiness_rules: vec![
            HappinessRule::NearbyNoise { radius_tiles: 48, penalty_per_noise: 2 },
            HappinessRule::BiomePreference { preferred: vec![BiomeId::NORMAL], mismatch_penalty: 20 },
        ],
    };
    assert(definition.bonuses@ =~= bonus_table(2)->0);
    assert(definition.preferred_biomes@ =~= preferred_biomes_table(2));
    proof {
        let rules = definition.happiness_rules@;
        if let HappinessRule::BiomePreference { preferred, .. } = rules[1] {
            assert(preferred@ =~= preferred_biomes_table(2));
        }
    }
    definition
}

fn security_officer() -> (definition: SpecialistDefinition)
    ensures
        definition.id.spec_raw() == 3,
        is_built_in_definition(definition),
{
    let definition = SpecialistDefinition {
        id: SpecialistId::QUARTERMASTER(),
        name: "Rook Hale",
        role: "Security Officer",
        company: ContractCompany::VanguardDefence,
        description: "A defence specialist who unlocks advanced turret priorities and improves every weapon platform.",
        greeting: "Closest is not always the greatest threat. I can sharpen the targeting logic and the response.",
        preferred_biomes: vec![BiomeId::NORMAL],
        bonuses: vec![
            SpecialistBonus::AdvancedTurretTargeting,
            SpecialistBonus::TurretDamagePercent(25),
            SpecialistBonus::TurretFireRatePercent(25),
        ],
        happiness_rules: vec![
            HappinessRule::NearbyNoise { radius_tiles: 40, penalty_per_noise: 2 },
            HappinessRule::BiomePreference { preferred: vec![BiomeId::NORMAL], mismatch_penalty: 20 },
        ],
    };
    assert(definition.bonuses@ =~= bonus_table(3)->0);
    assert(definition.preferred_biomes@ =~= preferred_biomes_table(3));
    proof {
        let rules = definition.happiness_rules@;
        if let HappinessRule::BiomePreference { preferred, .. } = rules[1] {
            assert(preferred@ =~= preferred_biomes_table(3));
        }
    }
    definition
}

/// The recruitable specialists, in identifier order.
#[allow(non_snake_case)]
pub fn BUILT_IN_SPECIALISTS() -> (definitions: Vec<SpecialistDefinition>)
    ensures
        definitions@.len() == 3,
        forall|i: int|
            0 <= i < 3 ==> #[trigger] definitions@[i].id.spec_raw() == i + 1
                && is_built_in_definition(definitions@[i]),
{
    vec![engineer(), logistics_engineer(), security_officer()]
}

/// The built-in definition of a specialist, if the identifier is known.
pub fn specialist_definition(id: SpecialistId) -> (definition: Option<SpecialistDefinition>)
    ensures
        definition is Some == (bonus_table(id.spec_raw()) is Some),
        definition matches Some(d) ==> d.id == id && is_built_in_definition(d),
{
    proof {
        lemma_specialist_id_raw(id, SpecialistId(1));
        lemma_specialist_id_raw(id, SpecialistId(2));
        lemma_specialist_id_raw(id, SpecialistId(3));
    }
    match id.raw() {
        1 => Some(engineer()),
        2 => Some(logistics_engineer()),
        3 => Some(security_officer()),
        _ => None,
    }
}

/// A recruited specialist as the world stores it. The position is kept as
/// the bit patterns of its two coordinates.
#[derive(Clone, Copy, Debug, PartialEq, Eq)]
pub struct SpecialistRecord {
    id: SpecialistId,
    home_terminal: ObjectId,
    position_bits: [u32; 2],
    happiness: u8,
}

impl SpecialistRecord {
    pub closed spec fn spec_id(&self) -> SpecialistId {
        self.id
    }

    pub closed spec fn spec_home_terminal(&self) -> ObjectId {
        self.home_terminal
    }

    pub closed spec fn spec_position_bits(&self) -> [u32; 2] {
        self.position_bits
    }

    pub closed spec fn spec_happiness(&self) -> u8 {
        self.happiness
    }

    /// The record with these parts.
    pub closed spec fn made(id: SpecialistId, home_terminal: ObjectId, position_bits: [u32; 2], happiness: u8) -> Self {
        SpecialistRecord { id, home_terminal, position_bits, happiness }
    }

    /// A newly recruited, fully happy specialist.
    pub fn new(id: SpecialistId, home_terminal: ObjectId, position_bits: [u32; 2]) -> (record: Self)
        ensures
            record == Self::made(id, home_terminal, position_bits, 100),
            record.spec_id() == id,
            record.spec_home_terminal() == home_terminal,
            record.spec_position_bits() == position_bits,
            record.spec_happiness() == 100,
    {
        SpecialistRecord { id, home_terminal, position_bits, happiness: 100 }
    }

    /// A specialist restored from a save, with its stored happiness.
    pub fn from_saved(
        id: SpecialistId,
        home_terminal: ObjectId,
        position_bits: [u32; 2],
        happiness: u8,
    ) -> (record: Self)
        ensures
            record == Self::made(id, home_terminal, position_bits, happiness),
            record.spec_id() == id,
            record.spec_home_terminal() == home_terminal,
            record.spec_position_bits() == position_bits,
            record.spec_happiness() == happiness,
    {
        SpecialistRecord { id, home_terminal, position_bits, happiness }
    }

    #[verifier::when_used_as_spec(spec_id)]
    pub fn id(&self) -> (id: SpecialistId)
        ensures
            id == self.spec_id(),
    {
        self.id
    }

    #[verifier::when_used_as_spec(spec_home_terminal)]
    pub fn home_terminal(&self) -> (terminal: ObjectId)
        ensures
            terminal == self.spec_home_terminal(),
    {
        self.home_terminal
    }

    pub fn position_bits(&self) -> (bits: [u32; 2])
        ensures
            bits == self.spec_position_bits(),
    {
        self.position_bits
    }

    #[verifier::when_used_as_spec(spec_happiness)]
    pub fn happiness(&self) -> (happiness: u8)
        ensures
            happiness == self.spec_happiness(),
    {
        self.happiness
    }

    pub fn set_position_bits(&mut self, position_bits: [u32; 2])
        ensures
            final(self).spec_position_bits() == position_bits,
            final(self).spec_id() == old(self).spec_id(),
            final(self).spec_home_terminal() == old(self).spec_home_terminal(),
            final(self).spec_happiness() == old(self).spec_happiness(),
    {
        self.position_bits = position_bits;
    }

    /// Stores a happiness score, capped at one hundred.
    pub fn set_happiness(&mut self, happiness: u8)
        ensures
            final(self).spec_happiness() == (if happiness < 100 { happiness } else { 100 }),
            final(self).spec_id() == old(self).spec_id(),
            final(self).spec_home_terminal() == old(self).spec_home_terminal(),
            final(self).spec_position_bits() == old(self).spec_position_bits(),
    {
        self.happiness = if happiness < 100 { happiness } else { 100 };
    }
}

/// What a specialist's home room offers.
#[derive(Clone, Copy, Debug, Default, PartialEq, Eq, Structural)]
pub struct HouseRequirements {
    pub enclosed: bool,
    pub background_walls: bool,
    pub door: bool,
    pub light: bool,
    pub bed: bool,
    pub enough_space: bool,
}

/// The labels of the unmet requirements, in a fixed order.
pub open spec fn missing_spec(r: HouseRequirements) -> Seq<&'static str> {
    (if r.enclosed { seq![] } else { seq!["closed walls"] })
        + (if r.background_walls { seq![] } else { seq!["background walls"] })
        + (if r.door { seq![] } else { seq!["a door"] })
        + (if r.light { seq![] } else { seq!["a light source"] })
        + (if r.bed { seq![] } else { seq!["a bed"] })
        + (if r.enough_space { seq![] } else { seq!["more interior space"] })
}

impl HouseRequirements {
    pub open spec fn spec_is_valid(self) -> bool {
        self.enclosed && self.background_walls && self.door && self.light && self.bed
            && self.enough_space
    }

    /// Whether every requirement is met.
    #[verifier::when_used_as_spec(spec_is_valid)]
    pub fn is_valid(self) -> (valid: bool)
        ensures
            valid == self.spec_is_valid(),
    {
        self.enclosed && self.background_walls && self.door && self.light && self.bed
            && self.enough_space
    }

    /// The labels of the requirements that are not met.
    pub fn missing_labels(self) -> (labels: Vec<&'static str>)
        ensures
            labels@ == missing_spec(self),
    {
        let mut labels: Vec<&'static str> = Vec::new();
        if !self.enclosed {
            labels.push("closed walls");
        }
        if !self.background_walls {
            labels.push("background walls");
        }
        if !self.door {
            labels.push("a door");
        }
        if !self.light {
            labels.push("a light source");
        }
        if !self.bed {
            labels.push("a bed");
        }
        if !self.enough_space {
            labels.push("more interior space");
        }
        assert(labels@ =~= missing_spec(self));
        labels
    }
}

/// The four cardinal neighbours of a tile: west, east, north, south; none
/// where the coordinate would leave the `u32` range.
pub fn neighbours(position: TilePos) -> (cells: [Option<TilePos>; 4])
    ensures
        cells[0] == (if position.x > 0 { Some(TilePos { x: (position.x - 1) as u32, y: position.y }) } else { None }),
        cells[1] == (if position.x < u32::MAX { Some(TilePos { x: (position.x + 1) as u32, y: position.y }) } else { None }),
        cells[2] == (if position.y > 0 { Some(TilePos { x: position.x, y: (position.y - 1) as u32 }) } else { None }),
        cells[3] == (if position.y < u32::MAX { Some(TilePos { x: position.x, y: (position.y + 1) as u32 }) } else { None }),
{
    let west = if position.x > 0 { Some(TilePos::new(position.x - 1, position.y)) } else { None };
    let east = if position.x < u32::MAX { Some(TilePos::new(position.x + 1, position.y)) } else { None };
    let north = if position.y > 0 { Some(TilePos::new(position.x, position.y - 1)) } else { None };
    let south = if position.y < u32::MAX { Some(TilePos::new(position.x, position.y + 1)) } else { None };
    [west, east, north, south]
}

/// One reason behind a specialist's happiness, with its effect on the score.
#[derive(Clone, Copy, Debug, PartialEq, Eq)]
pub struct HappinessFactor {
    pub label: &'static str,
    pub delta: i16,
}

/// A specialist's happiness score out of 100 and the reasons behind it.
#[derive(Clone, Debug, PartialEq, Eq)]
pub struct HappinessReport {
    pub score: u8,
    pub factors: Vec<HappinessFactor>,
}

/// The penalty for machinery noise: the noise times the penalty per noise,
/// at most 100.
pub open spec fn noise_penalty(noise: u32, penalty_per_noise: u8) -> int {
    if noise * penalty_per_noise >= 100 {
        100
    } else {
        noise * penalty_per_noise
    }
}

pub open spec fn biome_matches(biome: Option<BiomeId>, preferred: Seq<BiomeId>) -> bool {
    biome matches Some(b) && preferred.contains(b)
}

/// What one rule takes off the score, given the noise its radius hears and
/// the biome of the home.
pub open spec fn rule_penalty(rule: HappinessRule, noise: u32, biome: Option<BiomeId>) -> int {
    match rule {
        HappinessRule::NearbyNoise { penalty_per_noise, .. } => noise_penalty(noise, penalty_per_noise),
        HappinessRule::BiomePreference { preferred, mismatch_penalty } => if biome_matches(biome, preferred@) {
            0
        } else {
            mismatch_penalty as int
        },
    }
}

/// The factor one rule reports: noise when it costs anything, a biome
/// mismatch whenever the biome is not preferred.
pub open spec fn rule_factors(rule: HappinessRule, noise: u32, biome: Option<BiomeId>) -> Seq<HappinessFactor> {
    match rule {
        HappinessRule::NearbyNoise { penalty_per_noise, .. } => if noise_penalty(noise, penalty_per_noise) > 0 {
            seq![HappinessFactor { label: "Nearby machinery noise", delta: (-noise_penalty(noise, penalty_per_noise)) as i16 }]
        } else {
            seq![]
        },
        HappinessRule::BiomePreference { preferred, mismatch_penalty } => if biome_matches(biome, preferred@) {
            seq![]
        } else {
            seq![HappinessFactor { label: "Unpreferred biome", delta: (-(mismatch_penalty as int)) as i16 }]
        },
    }
}

/// The factors of a run of rules, each rule hearing the noise at its index.
pub open spec fn rules_factors(rules: Seq<HappinessRule>, noise: Seq<u32>, biome: Option<BiomeId>) -> Seq<
    HappinessFactor,
>
    decreases rules.len(),
{
    if rules.len() == 0 {
        seq![]
    } else {
        rules_factors(rules.drop_last(), noise, biome) + rule_factors(rules.last(), noise[rules.len() - 1], biome)
    }
}

pub open spec fn rules_penalty(rules: Seq<HappinessRule>, noise: Seq<u32>, biome: Option<BiomeId>) -> int
    decreases rules.len(),
{
    if rules.len() == 0 {
        0
    } else {
        rules_penalty(rules.drop_last(), noise, biome) + rule_penalty(rules.last(), noise[rules.len() - 1], biome)
    }
}

/// A score of 100 less the penalties, kept within 0 to 100.
pub open spec fn clamped_score(penalty: int) -> u8 {
    if 100 - penalty < 0 {
        0
    } else if 100 - penalty > 100 {
        100
    } else {
        (100 - penalty) as u8
    }
}

/// The factors of a built-in specialist's rules when its noise rule hears
/// `noise`.
pub open spec fn built_in_factors(raw: u16, noise: u32, biome: Option<BiomeId>) -> Seq<HappinessFactor> {
    let per_noise = noise_rule_table(raw).1;
    (if noise_penalty(noise, per_noise) > 0 {
        seq![HappinessFactor { label: "Nearby machinery noise", delta: (-noise_penalty(noise, per_noise)) as i16 }]
    } else {
        seq![]
    }) + (if biome_matches(biome, preferred_biomes_table(raw)) {
        seq![]
    } else {
        seq![HappinessFactor { label: "Unpreferred biome", delta: -20i16 }]
    })
}

pub open spec fn built_in_penalty(raw: u16, noise: u32, biome: Option<BiomeId>) -> int {
    noise_penalty(noise, noise_rule_table(raw).1) + if biome_matches(biome, preferred_biomes_table(raw)) {
        0int
    } else {
        20int
    }
}

fn contains_biome(preferred: &Vec<BiomeId>, biome: BiomeId) -> (found: bool)
    ensures
        found == preferred@.contains(biome),
{
    let mut index: usize = 0;
    while index < preferred.len()
        invariant
            index <= preferred@.len(),
            forall|i: int| 0 <= i < index ==> #[trigger] preferred@[i] != biome,
        decreases preferred@.len() - index,
    {
        if preferred[index] == biome {
            assert(preferred@[index as int] == biome);
            return true;
        }
        index = index + 1;
    }
    false
}

/// How happy a specialist is in its home. An unsuitable home scores zero
/// with that single reason; an unknown specialist scores zero with none.
/// Otherwise the score starts at 100 and each of the specialist's rules
/// takes its penalty: machinery noise heard within the rule's radius
/// (`noise` gives, for each rule in order, the noise its radius hears)
/// costs its penalty per noise, at most 100; living outside a preferred
/// biome costs the mismatch penalty. The score is kept within 0 to 100.
pub fn happiness_report(room_valid: bool, id: SpecialistId, noise: &[u32], biome: Option<BiomeId>) -> (report:
    HappinessReport)
    requires
        bonus_table(id.spec_raw()) is Some ==> noise@.len() == 2,
    ensures
        !room_valid ==> report.score == 0 && report.factors@ == seq![
            HappinessFactor { label: "Unsuitable house", delta: -100i16 },
        ],
        room_valid && bonus_table(id.spec_raw()) is None ==> report.score == 0 && report.factors@.len() == 0,
        room_valid && bonus_table(id.spec_raw()) is Some ==> report.factors@ == built_in_factors(
            id.spec_raw(),
            noise@[0],
            biome,
        ) && report.score == clamped_score(built_in_penalty(id.spec_raw(), noise@[0], biome)),
{
    if !room_valid {
        let factors = vec![HappinessFactor { label: "Unsuitable house", delta: -100 }];
        assert(factors@ =~= seq![HappinessFactor { label: "Unsuitable house", delta: -100i16 }]);
        return HappinessReport { score: 0, factors };
    }
    let definition = match specialist_definition(id) {
        Some(definition) => definition,
        None => return HappinessReport { score: 0, factors: Vec::new() },
    };
    let ghost rules = definition.happiness_rules@;
    let mut score: i32 = 100;
    let mut factors: Vec<HappinessFactor> = Vec::new();
    let mut index: usize = 0;
    while index < definition.happiness_rules.len()
        invariant
            rules == definition.happiness_rules@,
            rules.len() == 2,
            noise@.len() == 2,
            index <= 2,
            factors@ == rules_factors(rules.take(index as int), noise@, biome),
            score == 100 - rules_penalty(rules.take(index as int), noise@, biome),
            100 - 255 * index <= score <= 100,
        decreases 2 - index,
    {
        proof {
            assert(rules.take(index + 1).drop_last() =~= rules.take(index as int));
            assert(rules.take(index + 1).last() == rules[index as int]);
        }
        match &definition.happiness_rules[index] {
            HappinessRule::NearbyNoise { penalty_per_noise, .. } => {
                let product: u32 = match noise[index].checked_mul(*penalty_per_noise as u32) {
                    Some(product) => product,
                    None => u32::MAX,
                };
                let penalty: i16 = if product >= 100 { 100 } else { product as i16 };
                if penalty > 0 {
                    score = score - penalty as i32;
                    factors.push(HappinessFactor { label: "Nearby machinery noise", delta: -penalty });
                }
            },
            HappinessRule::BiomePreference { preferred, mismatch_penalty } => {
                let matches = match biome {
                    Some(current) => contains_biome(preferred, current),
                    None => false,
                };
                if !matches {
                    score = score - *mismatch_penalty as i32;
                    factors.push(HappinessFactor { label: "Unpreferred biome", delta: -(*mismatch_penalty as i16) });
                }
            },
        }
        index = index + 1;
    }
    proof {
        let raw = id.spec_raw();
        assert(built_in_rules(rules, raw));
        assert(rules.take(2) =~= rules);
        assert(rules.take(1).drop_last() =~= rules.take(0));
        assert(rules.take(2).drop_last() =~= rules.take(1));
        assert(rules.take(1).last() == rules[0]);
        assert(rules.take(2).last() == rules[1]);
        let first = rule_factors(rules[0], noise@[0], biome);
        let second = rule_factors(rules[1], noise@[1], biome);
        assert(rules_factors(rules.take(0), noise@, biome) == Seq::<HappinessFactor>::empty());
        assert(rules_factors(rules.take(1), noise@, biome) =~= first);
        assert(rules_factors(rules, noise@, biome) == first + second);
        if let HappinessRule::BiomePreference { preferred, mismatch_penalty } = rules[1] {
            assert(preferred@ == preferred_biomes_table(raw));
            assert(mismatch_penalty == 20);
        }
        assert(factors@ =~= built_in_factors(raw, noise@[0], biome));
        assert(rules_penalty(rules.take(0), noise@, biome) == 0);
        assert(rules_penalty(rules.take(1), noise@, biome) == rule_penalty(rules[0], noise@[0], biome));
        assert(rules_penalty(rules, noise@, biome) == rule_penalty(rules[0], noise@[0], biome) + rule_penalty(
            rules[1],
            noise@[1],
            biome,
        ));
        assert(rules_penalty(rules, noise@, biome) == built_in_penalty(raw, noise@[0], biome));
    }
    let clamped: u8 = if score < 0 {
        0
    } else if score > 100 {
        100
    } else {
        score as u8
    };
    HappinessReport { score: clamped, factors }
}

} // verus!
