use vstd::prelude::*;
use crate::items::ItemId;
use crate::terrain::{FurnitureObject, ObjectTypeId};

verus! {

/// The corporations that issue contracts.
#[derive(Clone, Copy, Debug, PartialEq, Eq, Hash, Structural)]
pub enum ContractCompany {
    DeepTekIndustries,
    VanguardDefence,
    AstraSurveyCorp,
}

pub const MAX_CORPORATION_LEVEL: u8 = 5;
pub const CORPORATION_LEVEL_THRESHOLDS: [u32; 6] = [0, 100, 250, 500, 900, 1_500];

impl ContractCompany {
    pub const ALL: [ContractCompany; 3] = [
        ContractCompany::DeepTekIndustries,
        ContractCompany::VanguardDefence,
        ContractCompany::AstraSurveyCorp,
    ];

    pub open spec fn spec_index(self) -> usize {
        match self {
            ContractCompany::DeepTekIndustries => 0,
            ContractCompany::VanguardDefence => 1,
            ContractCompany::AstraSurveyCorp => 2,
        }
    }

    /// Position of the company in `ALL` and in experience tables.
    #[verifier::when_used_as_spec(spec_index)]
    pub fn index(self) -> (index: usize)
        ensures
            index == self.spec_index(),
    {
        match self {
            ContractCompany::DeepTekIndustries => 0,
            ContractCompany::VanguardDefence => 1,
            ContractCompany::AstraSurveyCorp => 2,
        }
    }

    pub open spec fn spec_short_name(self) -> &'static str {
        match self {
            ContractCompany::DeepTekIndustries => "DEEPTEK",
            ContractCompany::VanguardDefence => "VANGUARD",
            ContractCompany::AstraSurveyCorp => "ASTRA",
        }
    }

    pub fn short_name(self) -> (name: &'static str)
        ensures
            name == self.spec_short_name(),
    {
        match self {
            ContractCompany::DeepTekIndustries => "DEEPTEK",
            ContractCompany::VanguardDefence => "VANGUARD",
            ContractCompany::AstraSurveyCorp => "ASTRA",
        }
    }

    pub open spec fn spec_display_name(self) -> &'static str {
        match self {
            ContractCompany::DeepTekIndustries => "DEEPTEK INDUSTRIES",
            ContractCompany::VanguardDefence => "VANGUARD DEFENCE",
            ContractCompany::AstraSurveyCorp => "ASTRA SURVEY CORP",
        }
    }

    pub fn display_name(self) -> (name: &'static str)
        ensures
            name == self.spec_display_name(),
    {
        match self {
            ContractCompany::DeepTekIndustries => "DEEPTEK INDUSTRIES",
            ContractCompany::VanguardDefence => "VANGUARD DEFENCE",
            ContractCompany::AstraSurveyCorp => "ASTRA SURVEY CORP",
        }
    }
}

/// The highest corporation level whose experience threshold is reached.
pub open spec fn level_for(experience: u32) -> u8 {
    if experience >= CORPORATION_LEVEL_THRESHOLDS[5] {
        5
    } else if experience >= CORPORATION_LEVEL_THRESHOLDS[4] {
        4
    } else if experience >= CORPORATION_LEVEL_THRESHOLDS[3] {
        3
    } else if experience >= CORPORATION_LEVEL_THRESHOLDS[2] {
        2
    } else if experience >= CORPORATION_LEVEL_THRESHOLDS[1] {
        1
    } else {
        0
    }
}

/// Experience earned with each corporation, capped at the last threshold.
#[derive(Clone, Copy, Debug, PartialEq, Eq)]
pub struct CorporationProgress {
    experience: [u32; 3],
}

impl CorporationProgress {
    pub closed spec fn spec_experience(self, company: ContractCompany) -> u32 {
        self.experience@[company.spec_index() as int]
    }

    /// No corporation's experience exceeds the cap.
    pub closed spec fn wf(self) -> bool {
        forall|i: int| 0 <= i < 3 ==> #[trigger] self.experience@[i] <= CORPORATION_LEVEL_THRESHOLDS[5]
    }

    /// Restores saved experience, clamping each value to the cap.
    pub fn from_experience(experience: [u32; 3]) -> (progress: Self)
        ensures
            progress.wf(),
            forall|company: ContractCompany|
                #[trigger] progress.spec_experience(company) == vstd::math::min(
                    experience@[company.spec_index() as int] as int,
                    CORPORATION_LEVEL_THRESHOLDS[5] as int,
                ),
    {
        let maximum = CORPORATION_LEVEL_THRESHOLDS[MAX_CORPORATION_LEVEL as usize];
        let first = if experience[0] < maximum { experience[0] } else { maximum };
        let second = if experience[1] < maximum { experience[1] } else { maximum };
        let third = if experience[2] < maximum { experience[2] } else { maximum };
        let progress = CorporationProgress { experience: [first, second, third] };
        assert(progress.experience@[0] == first);
        assert(progress.experience@[1] == second);
        assert(progress.experience@[2] == third);
        progress
    }

    pub fn experience(self, company: ContractCompany) -> (experience: u32)
        ensures
            experience == self.spec_experience(company),
    {
        self.experience[company.index()]
    }

    /// Adds experience up to the cap and returns how much was actually gained.
    pub fn award(&mut self, company: ContractCompany, amount: u32) -> (gained: u32)
        requires
            old(self).wf(),
        ensures
            final(self).wf(),
            final(self).spec_experience(company) == vstd::math::min(
                old(self).spec_experience(company) + amount,
                CORPORATION_LEVEL_THRESHOLDS[5] as int,
            ),
            gained == final(self).spec_experience(company) - old(self).spec_experience(company),
            forall|other: ContractCompany|
                other != company ==> #[trigger] final(self).spec_experience(other) == old(
                    self,
                ).spec_experience(other),
    {
        let index = company.index();
        let maximum = CORPORATION_LEVEL_THRESHOLDS[MAX_CORPORATION_LEVEL as usize];
        let previous = self.experience[index];
        let raised = previous.saturating_add(amount);
        let updated = if raised < maximum { raised } else { maximum };
        self.experience[index] = updated;
        proof {
            assert forall|other: ContractCompany| other != company implies #[trigger] self.spec_experience(other)
                == old(self).spec_experience(other) by {
                assert(other.spec_index() != company.spec_index());
            }
        }
        updated - previous
    }

    /// The corporation level reached with a company.
    pub fn level(self, company: ContractCompany) -> (level: u8)
        ensures
            level == level_for(self.spec_experience(company)),
    {
        let experience = self.experience(company);
        let mut level: usize = MAX_CORPORATION_LEVEL as usize;
        while level > 0 && experience < CORPORATION_LEVEL_THRESHOLDS[level]
            invariant
                level <= 5,
                experience == self.spec_experience(company),
                forall|higher: int| level < higher <= 5 ==> experience < #[trigger] CORPORATION_LEVEL_THRESHOLDS[higher],
            decreases level,
        {
            level = level - 1;
        }
        level as u8
    }

    /// The experience needed for the next level, or none at the top level.
    pub fn next_level_experience(self, company: ContractCompany) -> (next: Option<u32>)
        ensures
            level_for(self.spec_experience(company)) < MAX_CORPORATION_LEVEL ==> next == Some(
                CORPORATION_LEVEL_THRESHOLDS[level_for(self.spec_experience(company)) + 1],
            ),
            level_for(self.spec_experience(company)) >= MAX_CORPORATION_LEVEL ==> next is None,
    {
        let level = self.level(company);
        if level < MAX_CORPORATION_LEVEL {
            Some(CORPORATION_LEVEL_THRESHOLDS[level as usize + 1])
        } else {
            None
        }
    }

    pub fn all_experience(self) -> (experience: [u32; 3])
        ensures
            forall|company: ContractCompany|
                #[trigger] experience@[company.spec_index() as int] == self.spec_experience(company),
    {
        self.experience
    }
}

impl Default for CorporationProgress {
    fn default() -> (progress: Self)
        ensures
            progress.wf(),
            forall|company: ContractCompany| #[trigger] progress.spec_experience(company) == 0,
    {
        let progress = CorporationProgress { experience: [0, 0, 0] };
        assert(progress.experience@[0] == 0);
        assert(progress.experience@[1] == 0);
        assert(progress.experience@[2] == 0);
        progress
    }
}


/// Identifiers of the scripted programme missions.
#[derive(Clone, Copy, Debug, PartialEq, Eq, Hash, Structural)]
pub enum ContractId {
    BreakingGround,
    FirstShipment,
    SitePower,
    Procurement,
    IndustrialExtraction,
    Prospecting,
    IronAge,
    GoingDown,
    ValueAdded,
    HandsOff,
    HelpWanted,
    Depth100,
    Depth250,
    Depth500,
    Depth1000,
    Depth2500,
    Depth5000,
    RecoverAsterite,
}

/// What a contract asks for, with the progress made so far.
#[allow(inconsistent_fields)]
#[derive(Clone, Debug, PartialEq, Eq)]
pub enum ContractObjective {
    ExportItems { item: ItemId, exported: u64, required: u64 },
    MineItems { item: ItemId, mined: u64, required: u64 },
    BuildAndExport {
        required_objects: Vec<ObjectTypeId>,
        placed_objects: Vec<ObjectTypeId>,
        item: ItemId,
        exported: u64,
        required: u64,
    },
    Program { completed: u16, required: u16 },
}

/// A contract objective as it is saved, including the absence of one.
#[allow(inconsistent_fields)]
#[derive(Clone, Debug, PartialEq, Eq)]
pub enum SavedContractObjective {
    Absent,
    ExportItems { item: ItemId, exported: u64, required: u64 },
    MineItems { item: ItemId, mined: u64, required: u64 },
    BuildAndExport {
        required_objects: Vec<ObjectTypeId>,
        placed_objects: Vec<ObjectTypeId>,
        item: ItemId,
        exported: u64,
        required: u64,
    },
    Program { completed: u16, required: u16 },
}

#[derive(Clone, Copy, Debug, PartialEq, Eq, Structural)]
pub struct ExportContractProgress {
    pub item: ItemId,
    pub exported: u64,
    pub required: u64,
}

impl ExportContractProgress {
    pub fn is_complete(self) -> (complete: bool)
        ensures
            complete == (self.exported >= self.required),
    {
        self.exported >= self.required
    }
}

#[derive(Clone, Copy, Debug, PartialEq, Eq, Structural)]
pub struct MineContractProgress {
    pub item: ItemId,
    pub mined: u64,
    pub required: u64,
}

impl MineContractProgress {
    pub fn is_complete(self) -> (complete: bool)
        ensures
            complete == (self.mined >= self.required),
    {
        self.mined >= self.required
    }
}

#[derive(Clone, Copy, Debug, PartialEq, Eq, Structural)]
pub struct BuildAndExportContractProgress {
    pub placed: usize,
    pub required_placements: usize,
    pub item: ItemId,
    pub exported: u64,
    pub required_exports: u64,
}

impl BuildAndExportContractProgress {
    pub fn is_complete(self) -> (complete: bool)
        ensures
            complete == (self.placed >= self.required_placements && self.exported
                >= self.required_exports),
    {
        self.placed >= self.required_placements && self.exported >= self.required_exports
    }
}

#[derive(Clone, Copy, Debug, PartialEq, Eq, Structural)]
pub struct ProgramContractProgress {
    pub completed: u16,
    pub required: u16,
}

impl ProgramContractProgress {
    pub fn is_complete(self) -> (complete: bool)
        ensures
            complete == (self.completed >= self.required),
    {
        self.completed >= self.required
    }
}

/// What mining or placing contributed to the active contracts.
#[derive(Clone, Copy, Debug, Default, PartialEq, Eq, Structural)]
pub struct ContractProgressResult {
    pub contributed: u64,
    pub completed_contracts: usize,
}

/// What one shipment contributed to the active contracts.
#[derive(Clone, Copy, Debug, Default, PartialEq, Eq, Structural)]
pub struct ContractExportResult {
    /// Number of exported items assigned to matching unfinished contracts.
    pub contributed: u64,
    /// Number of contracts made ready for manual reward collection.
    pub completed_contracts: usize,
}

pub const MAX_ACTIVE_CONTRACTS: usize = 4;

#[derive(Clone, Copy, Debug, PartialEq, Eq, Structural)]
pub enum AcceptContractError {
    InvalidContract,
    ActiveLimitReached,
}

#[derive(Clone, Copy, Debug, PartialEq, Eq, Structural)]
pub enum ClaimContractError {
    InvalidContract,
    Incomplete,
}

/// Whether an objective has been met; a contract without one never is.
pub open spec fn objective_complete(objective: Option<ContractObjective>) -> bool {
    match objective {
        Some(ContractObjective::ExportItems { exported, required, .. }) => exported >= required,
        Some(ContractObjective::MineItems { mined, required, .. }) => mined >= required,
        Some(
            ContractObjective::BuildAndExport { required_objects, placed_objects, exported, required, .. },
        ) => placed_objects@.len() >= required_objects@.len() && exported >= required,
        Some(ContractObjective::Program { completed, required }) => completed >= required,
        None => false,
    }
}

/// Exported items feed export and build-and-export objectives; mined items
/// feed mining objectives.
#[derive(Clone, Copy, Debug, PartialEq, Eq, Structural)]
pub enum Shipment {
    Exported,
    Mined,
}

/// The progress counter a shipment of `item` may raise, with its target.
pub open spec fn shipment_counter(objective: Option<ContractObjective>, shipment: Shipment, item: ItemId) -> Option<(u64, u64)> {
    match (shipment, objective) {
        (Shipment::Exported, Some(ContractObjective::ExportItems { item: wanted, exported, required })) => if wanted == item {
            Some((exported, required))
        } else {
            None
        },
        (Shipment::Exported, Some(ContractObjective::BuildAndExport { item: wanted, exported, required, .. })) => if wanted
            == item {
            Some((exported, required))
        } else {
            None
        },
        (Shipment::Mined, Some(ContractObjective::MineItems { item: wanted, mined, required })) => if wanted == item {
            Some((mined, required))
        } else {
            None
        },
        _ => None,
    }
}

/// The objective with its shipment counter set to `count`.
pub open spec fn with_counter(objective: Option<ContractObjective>, count: u64) -> Option<ContractObjective> {
    match objective {
        Some(ContractObjective::ExportItems { item, required, .. }) => Some(
            ContractObjective::ExportItems { item, exported: count, required },
        ),
        Some(ContractObjective::MineItems { item, required, .. }) => Some(
            ContractObjective::MineItems { item, mined: count, required },
        ),
        Some(
            ContractObjective::BuildAndExport { required_objects, placed_objects, item, required, .. },
        ) => Some(
            ContractObjective::BuildAndExport {
                required_objects,
                placed_objects,
                item,
                exported: count,
                required,
            },
        ),
        _ => objective,
    }
}

/// One contract's share of a shipment: up to the items it still needs.
/// Returns the new objective, the items taken and whether this made the
/// contract complete, ready for its reward to be collected (a contract that
/// takes items was not complete before).
pub open spec fn contribute_spec(
    objective: Option<ContractObjective>,
    shipment: Shipment,
    item: ItemId,
    available: u64,
) -> (Option<ContractObjective>, u64, bool) {
    match shipment_counter(objective, shipment, item) {
        Some((count, required)) => if count >= required || available == 0 {
            (objective, 0, false)
        } else {
            let taken = vstd::math::min(available as int, required - count) as u64;
            let next = with_counter(objective, (count + taken) as u64);
            (next, taken, objective_complete(next))
        },
        None => (objective, 0, false),
    }
}

/// A shipment assigned across objectives in display order, each item at
/// most once: new objectives, items taken and contracts completed.
pub open spec fn distribute_spec(
    objectives: Seq<Option<ContractObjective>>,
    shipment: Shipment,
    item: ItemId,
    available: u64,
) -> (Seq<Option<ContractObjective>>, nat, nat)
    decreases objectives.len(),
{
    if objectives.len() == 0 {
        (objectives, 0, 0)
    } else {
        let head = contribute_spec(objectives[0], shipment, item, available);
        let tail = distribute_spec(objectives.drop_first(), shipment, item, (available - head.1) as u64);
        (seq![head.0] + tail.0, head.1 as nat + tail.1, (if head.2 {
            1nat
        } else {
            0nat
        }) + tail.2)
    }
}

pub proof fn lemma_contribute_bounds(
    objective: Option<ContractObjective>,
    shipment: Shipment,
    item: ItemId,
    available: u64,
)
    ensures
        contribute_spec(objective, shipment, item, available).1 <= available,
{
}

pub proof fn lemma_distribute_append(
    a: Seq<Option<ContractObjective>>,
    b: Seq<Option<ContractObjective>>,
    shipment: Shipment,
    item: ItemId,
    available: u64,
)
    ensures
        ({
            let first = distribute_spec(a, shipment, item, available);
            let second = distribute_spec(b, shipment, item, (available - first.1) as u64);
            &&& first.1 <= available
            &&& first.2 <= a.len()
            &&& first.0.len() == a.len()
            &&& distribute_spec(a + b, shipment, item, available) == (
                first.0 + second.0,
                first.1 + second.1,
                first.2 + second.2,
            )
        }),
    decreases a.len(),
{
    if a.len() == 0 {
        assert(a + b =~= b);
        assert(distribute_spec(a, shipment, item, available).0 + distribute_spec(b, shipment, item, available).0
            =~= distribute_spec(b, shipment, item, available).0);
    } else {
        let head = contribute_spec(a[0], shipment, item, available);
        lemma_contribute_bounds(a[0], shipment, item, available);
        assert((a + b)[0] == a[0]);
        assert((a + b).drop_first() =~= a.drop_first() + b);
        lemma_distribute_append(a.drop_first(), b, shipment, item, (available - head.1) as u64);
        let rest = distribute_spec(a.drop_first(), shipment, item, (available - head.1) as u64);
        let second = distribute_spec(b, shipment, item, (available - head.1 - rest.1) as u64);
        assert(seq![head.0] + (rest.0 + second.0) =~= (seq![head.0] + rest.0) + second.0);
    }
}

/// How many times `object` occurs in a list of object kinds.
pub open spec fn occurrences(objects: Seq<ObjectTypeId>, object: ObjectTypeId) -> nat
    decreases objects.len(),
{
    if objects.len() == 0 {
        0
    } else {
        (if objects[0] == object {
            1nat
        } else {
            0nat
        }) + occurrences(objects.drop_first(), object)
    }
}

/// Whether a placement of `object` counts toward an objective: a
/// build-and-export objective that still needs a copy of it.
pub open spec fn counts_placement(objective: Option<ContractObjective>, object: ObjectTypeId) -> bool {
    match objective {
        Some(ContractObjective::BuildAndExport { required_objects, placed_objects, .. }) => occurrences(
            placed_objects@,
            object,
        ) < occurrences(required_objects@, object),
        _ => false,
    }
}

/// How many of the first `n` contracts a placement of `object` counts for.
pub open spec fn placements_counted(before: Seq<Contract>, object: ObjectTypeId, n: int) -> nat
    decreases n,
{
    if n <= 0 {
        0
    } else {
        placements_counted(before, object, n - 1) + if counts_placement(before[n - 1].spec_objective(), object) {
            1nat
        } else {
            0nat
        }
    }
}

/// How many of the first `n` contracts a placement made complete.
pub open spec fn placements_completed(before: Seq<Contract>, after: Seq<Contract>, object: ObjectTypeId, n: int) -> nat
    decreases n,
{
    if n <= 0 {
        0
    } else {
        placements_completed(before, after, object, n - 1) + if counts_placement(
            before[n - 1].spec_objective(),
            object,
        ) && !objective_complete(before[n - 1].spec_objective()) && objective_complete(
            after[n - 1].spec_objective(),
        ) {
            1nat
        } else {
            0nat
        }
    }
}

proof fn lemma_completed_prefix(before: Seq<Contract>, a: Seq<Contract>, b: Seq<Contract>, object: ObjectTypeId, n: int)
    requires
        forall|i: int| 0 <= i < n ==> a[i] == b[i],
    ensures
        placements_completed(before, a, object, n) == placements_completed(before, b, object, n),
    decreases n,
{
    if n > 0 {
        lemma_completed_prefix(before, a, b, object, n - 1);
    }
}

/// A placement counts once per required copy of that object kind: when
/// `counted`, the new objective is the old one with `object` appended to the
/// placed objects; otherwise it is unchanged.
pub open spec fn placement_spec(
    before: Option<ContractObjective>,
    after: Option<ContractObjective>,
    object: ObjectTypeId,
    counted: bool,
) -> bool {
    match before {
        Some(
            ContractObjective::BuildAndExport { required_objects, placed_objects, item, exported, required },
        ) => if occurrences(placed_objects@, object) >= occurrences(required_objects@, object) {
            !counted && after == before
        } else {
            counted && match after {
                Some(
                    ContractObjective::BuildAndExport {
                        required_objects: new_required,
                        placed_objects: new_placed,
                        item: new_item,
                        exported: new_exported,
                        required: new_target,
                    },
                ) => new_required@ == required_objects@ && new_placed@ == placed_objects@.push(object)
                    && new_item == item && new_exported == exported && new_target == required,
                _ => false,
            }
        },
        _ => !counted && after == before,
    }
}

/// Program progress only rises, never beyond the target, and only when the
/// stated target matches; returns the objective and whether it just completed.
pub open spec fn program_progress_spec(objective: Option<ContractObjective>, completed: u16, required: u16) -> (Option<ContractObjective>, bool) {
    match objective {
        Some(ContractObjective::Program { completed: current, required: expected }) => if expected
            != required {
            (objective, false)
        } else {
            let raised = vstd::math::max(vstd::math::min(completed as int, required as int), current as int) as u16;
            (Some(ContractObjective::Program { completed: raised, required: expected }), current < expected && raised >= expected)
        },
        _ => (objective, false),
    }
}


pub proof fn lemma_occurrences_append(a: Seq<ObjectTypeId>, b: Seq<ObjectTypeId>, object: ObjectTypeId)
    ensures
        occurrences(a + b, object) == occurrences(a, object) + occurrences(b, object),
    decreases a.len(),
{
    if a.len() == 0 {
        assert(a + b =~= b);
    } else {
        assert((a + b)[0] == a[0]);
        assert((a + b).drop_first() =~= a.drop_first() + b);
        lemma_occurrences_append(a.drop_first(), b, object);
    }
}

fn count_objects(objects: &Vec<ObjectTypeId>, object: ObjectTypeId) -> (count: usize)
    ensures
        count == occurrences(objects@, object),
{
    let mut count: usize = 0;
    let mut index: usize = 0;
    assert(objects@.take(0) =~= Seq::<ObjectTypeId>::empty());
    while index < objects.len()
        invariant
            index <= objects@.len(),
            count == occurrences(objects@.take(index as int), object),
            count <= index,
        decreases objects@.len() - index,
    {
        proof {
            let single = seq![objects@[index as int]];
            assert(objects@.take(index + 1) =~= objects@.take(index as int) + single);
            lemma_occurrences_append(objects@.take(index as int), single, object);
            assert(single.drop_first() =~= Seq::<ObjectTypeId>::empty());
            reveal_with_fuel(occurrences, 2);
        }
        if objects[index] == object {
            count = count + 1;
        }
        index = index + 1;
    }
    assert(objects@.take(objects@.len() as int) =~= objects@);
    count
}

fn copy_objects(objects: &Vec<ObjectTypeId>) -> (copy: Vec<ObjectTypeId>)
    ensures
        copy@ == objects@,
{
    let mut copy: Vec<ObjectTypeId> = Vec::new();
    let mut index: usize = 0;
    while index < objects.len()
        invariant
            index <= objects@.len(),
            copy@ == objects@.take(index as int),
        decreases objects@.len() - index,
    {
        copy.push(objects[index]);
        index = index + 1;
        assert(copy@ =~= objects@.take(index as int));
    }
    assert(objects@.take(objects@.len() as int) =~= objects@);
    copy
}

/// One contract's share of a shipment, computed.
fn contribute_objective(
    objective: Option<ContractObjective>,
    shipment: Shipment,
    item: ItemId,
    available: u64,
) -> (result: (Option<ContractObjective>, u64, bool))
    ensures
        result == contribute_spec(objective, shipment, item, available),
{
    match objective {
        Some(ContractObjective::ExportItems { item: wanted, exported, required }) => {
            if shipment == Shipment::Exported && wanted == item && exported < required && available > 0 {
                let taken = if available < required - exported {
                    available
                } else {
                    required - exported
                };
                (Some(ContractObjective::ExportItems { item: wanted, exported: exported + taken, required }), taken, exported + taken == required)
            } else {
                (Some(ContractObjective::ExportItems { item: wanted, exported, required }), 0, false)
            }
        },
        Some(ContractObjective::MineItems { item: wanted, mined, required }) => {
            if shipment == Shipment::Mined && wanted == item && mined < required && available > 0 {
                let taken = if available < required - mined {
                    available
                } else {
                    required - mined
                };
                (Some(ContractObjective::MineItems { item: wanted, mined: mined + taken, required }), taken, mined + taken == required)
            } else {
                (Some(ContractObjective::MineItems { item: wanted, mined, required }), 0, false)
            }
        },
        Some(ContractObjective::BuildAndExport { required_objects, placed_objects, item: wanted, exported, required }) => {
            if shipment == Shipment::Exported && wanted == item && exported < required && available > 0 {
                let taken = if available < required - exported {
                    available
                } else {
                    required - exported
                };
                let ready = exported + taken == required && placed_objects.len() >= required_objects.len();
                (Some(ContractObjective::BuildAndExport { required_objects, placed_objects, item: wanted, exported: exported + taken, required }), taken, ready)
            } else {
                (Some(ContractObjective::BuildAndExport { required_objects, placed_objects, item: wanted, exported, required }), 0, false)
            }
        },
        other => (other, 0, false),
    }
}

/// One contract offered or accepted on the contract board.
#[derive(Clone, Debug, PartialEq, Eq)]
pub struct Contract {
    id: Option<ContractId>,
    pub requirement: String,
    pub reward: u64,
    pub company: ContractCompany,
    pub experience_reward: u32,
    objective: Option<ContractObjective>,
}

impl Contract {
    pub closed spec fn spec_id(&self) -> Option<ContractId> {
        self.id
    }

    pub closed spec fn spec_objective(&self) -> Option<ContractObjective> {
        self.objective
    }

    pub closed spec fn spec_requirement(&self) -> Seq<char> {
        self.requirement@
    }

    pub closed spec fn spec_reward(&self) -> u64 {
        self.reward
    }

    pub closed spec fn spec_company(&self) -> ContractCompany {
        self.company
    }

    pub closed spec fn spec_experience_reward(&self) -> u32 {
        self.experience_reward
    }

    /// The same contract with a different objective.
    pub closed spec fn with_objective(self, objective: Option<ContractObjective>) -> Contract {
        Contract { objective, ..self }
    }

    pub broadcast proof fn lemma_with_objective(self, objective: Option<ContractObjective>)
        ensures
            #[trigger] self.with_objective(objective).spec_objective() == objective,
            self.with_objective(objective).spec_id() == self.spec_id(),
            self.with_objective(objective).spec_requirement() == self.spec_requirement(),
            self.with_objective(objective).spec_reward() == self.spec_reward(),
            self.with_objective(objective).spec_company() == self.spec_company(),
            self.with_objective(objective).spec_experience_reward() == self.spec_experience_reward(),
    {
    }

    /// A contract without a tracked objective.
    pub fn new(requirement: &str, reward: u64, company: ContractCompany) -> (contract: Self)
        ensures
            contract_reachable(contract),
            contract.spec_id() is None,
            contract.spec_requirement() == requirement@,
            contract.spec_reward() == reward,
            contract.spec_company() == company,
            contract.spec_experience_reward() == 100,
            contract.spec_objective() is None,
    {
        Contract {
            id: None,
            requirement: requirement.to_owned(),
            reward,
            company,
            experience_reward: 100,
            objective: None,
        }
    }

    /// A contract to export `required` items of one kind.
    pub fn export_items(
        requirement: &str,
        reward: u64,
        company: ContractCompany,
        item: ItemId,
        required: u64,
    ) -> (contract: Self)
        requires
            required > 0,
        ensures
            contract_reachable(contract),
            contract.spec_id() is None,
            contract.spec_requirement() == requirement@,
            contract.spec_reward() == reward,
            contract.spec_company() == company,
            contract.spec_experience_reward() == 100,
            contract.spec_objective() == Some(ContractObjective::ExportItems { item, exported: 0, required }),
    {
        Contract {
            id: None,
            requirement: requirement.to_owned(),
            reward,
            company,
            experience_reward: 100,
            objective: Some(ContractObjective::ExportItems { item, exported: 0, required }),
        }
    }

    /// A contract to mine `required` items of one kind.
    pub fn mine_items(
        requirement: &str,
        reward: u64,
        company: ContractCompany,
        item: ItemId,
        required: u64,
    ) -> (contract: Self)
        requires
            required > 0,
        ensures
            contract_reachable(contract),
            contract.spec_id() is None,
            contract.spec_requirement() == requirement@,
            contract.spec_reward() == reward,
            contract.spec_company() == company,
            contract.spec_experience_reward() == 100,
            contract.spec_objective() == Some(ContractObjective::MineItems { item, mined: 0, required }),
    {
        Contract {
            id: None,
            requirement: requirement.to_owned(),
            reward,
            company,
            experience_reward: 100,
            objective: Some(ContractObjective::MineItems { item, mined: 0, required }),
        }
    }

    /// A contract to place every listed object and then export items.
    pub fn build_and_export(
        requirement: &str,
        reward: u64,
        company: ContractCompany,
        required_objects: Vec<ObjectTypeId>,
        item: ItemId,
        required_exports: u64,
    ) -> (contract: Self)
        requires
            required_objects@.len() > 0,
            required_exports > 0,
        ensures
            contract_reachable(contract),
            contract.spec_id() is None,
            contract.spec_requirement() == requirement@,
            contract.spec_reward() == reward,
            contract.spec_company() == company,
            contract.spec_experience_reward() == 100,
            match contract.spec_objective() {
                Some(ContractObjective::BuildAndExport { required_objects: wanted, placed_objects, item: exported_item, exported, required }) =>
                    wanted@ == required_objects@ && placed_objects@.len() == 0 && exported_item == item
                    && exported == 0 && required == required_exports,
                _ => false,
            },
    {
        Contract {
            id: None,
            requirement: requirement.to_owned(),
            reward,
            company,
            experience_reward: 100,
            objective: Some(
                ContractObjective::BuildAndExport {
                    required_objects,
                    placed_objects: Vec::new(),
                    item,
                    exported: 0,
                    required: required_exports,
                },
            ),
        }
    }

    /// A programme mission of `required_steps` scripted steps, issued by DeepTek.
    pub fn program_mission(
        id: ContractId,
        requirement: &str,
        reward: u64,
        experience_reward: u32,
        required_steps: u16,
    ) -> (contract: Self)
        requires
            required_steps > 0,
        ensures
            contract_reachable(contract),
            contract.spec_id() == Some(id),
            contract.spec_requirement() == requirement@,
            contract.spec_reward() == reward,
            contract.spec_company() == ContractCompany::DeepTekIndustries,
            contract.spec_experience_reward() == experience_reward,
            contract.spec_objective() == Some(ContractObjective::Program { completed: 0, required: required_steps }),
    {
        Contract {
            id: Some(id),
            requirement: requirement.to_owned(),
            reward,
            company: ContractCompany::DeepTekIndustries,
            experience_reward,
            objective: Some(ContractObjective::Program { completed: 0, required: required_steps }),
        }
    }

    pub fn with_id(self, id: ContractId) -> (contract: Self)
        ensures
            contract.spec_id() == Some(id),
            contract.spec_requirement() == self.spec_requirement(),
            contract.spec_reward() == self.spec_reward(),
            contract.spec_company() == self.spec_company(),
            contract.spec_experience_reward() == self.spec_experience_reward(),
            contract.spec_objective() == self.spec_objective(),
    {
        let mut contract = self;
        contract.id = Some(id);
        contract
    }

    pub fn id(&self) -> (id: Option<ContractId>)
        ensures
            id == self.spec_id(),
    {
        self.id
    }

    pub fn with_experience_reward(self, experience_reward: u32) -> (contract: Self)
        ensures
            contract.spec_id() == self.spec_id(),
            contract.spec_requirement() == self.spec_requirement(),
            contract.spec_reward() == self.spec_reward(),
            contract.spec_company() == self.spec_company(),
            contract.spec_experience_reward() == experience_reward,
            contract.spec_objective() == self.spec_objective(),
    {
        let mut contract = self;
        contract.experience_reward = experience_reward;
        contract
    }

    pub fn export_progress(&self) -> (progress: Option<ExportContractProgress>)
        ensures
            match self.spec_objective() {
                Some(ContractObjective::ExportItems { item, exported, required }) => progress == Some(
                    ExportContractProgress { item, exported, required },
                ),
                _ => progress is None,
            },
    {
        match &self.objective {
            Some(ContractObjective::ExportItems { item, exported, required }) => Some(
                ExportContractProgress { item: *item, exported: *exported, required: *required },
            ),
            _ => None,
        }
    }

    pub fn mine_progress(&self) -> (progress: Option<MineContractProgress>)
        ensures
            match self.spec_objective() {
                Some(ContractObjective::MineItems { item, mined, required }) => progress == Some(
                    MineContractProgress { item, mined, required },
                ),
                _ => progress is None,
            },
    {
        match &self.objective {
            Some(ContractObjective::MineItems { item, mined, required }) => Some(
                MineContractProgress { item: *item, mined: *mined, required: *required },
            ),
            _ => None,
        }
    }

    pub fn build_and_export_progress(&self) -> (progress: Option<BuildAndExportContractProgress>)
        ensures
            match self.spec_objective() {
                Some(ContractObjective::BuildAndExport { required_objects, placed_objects, item, exported, required }) =>
                    progress == Some(
                    BuildAndExportContractProgress {
                        placed: placed_objects@.len() as usize,
                        required_placements: required_objects@.len() as usize,
                        item,
                        exported,
                        required_exports: required,
                    },
                ),
                _ => progress is None,
            },
    {
        match &self.objective {
            Some(ContractObjective::BuildAndExport { required_objects, placed_objects, item, exported, required }) => Some(
                BuildAndExportContractProgress {
                    placed: placed_objects.len(),
                    required_placements: required_objects.len(),
                    item: *item,
                    exported: *exported,
                    required_exports: *required,
                },
            ),
            _ => None,
        }
    }

    pub fn program_progress(&self) -> (progress: Option<ProgramContractProgress>)
        ensures
            match self.spec_objective() {
                Some(ContractObjective::Program { completed, required }) => progress == Some(
                    ProgramContractProgress { completed, required },
                ),
                _ => progress is None,
            },
    {
        match &self.objective {
            Some(ContractObjective::Program { completed, required }) => Some(
                ProgramContractProgress { completed: *completed, required: *required },
            ),
            _ => None,
        }
    }

    /// Whether the objective has been met; a contract without one never is.
    pub fn is_complete(&self) -> (complete: bool)
        ensures
            complete == objective_complete(self.spec_objective()),
    {
        match &self.objective {
            Some(ContractObjective::ExportItems { exported, required, .. }) => *exported >= *required,
            Some(ContractObjective::MineItems { mined, required, .. }) => *mined >= *required,
            Some(ContractObjective::BuildAndExport { required_objects, placed_objects, exported, required, .. }) =>
                placed_objects.len() >= required_objects.len() && *exported >= *required,
            Some(ContractObjective::Program { completed, required }) => *completed >= *required,
            None => false,
        }
    }

    /// The objective in its saved form.
    pub fn saved_objective(&self) -> (saved: SavedContractObjective)
        ensures
            saved_matches(self.spec_objective(), saved),
    {
        match &self.objective {
            None => SavedContractObjective::Absent,
            Some(ContractObjective::ExportItems { item, exported, required }) => SavedContractObjective::ExportItems {
                item: *item,
                exported: *exported,
                required: *required,
            },
            Some(ContractObjective::MineItems { item, mined, required }) => SavedContractObjective::MineItems {
                item: *item,
                mined: *mined,
                required: *required,
            },
            Some(ContractObjective::BuildAndExport { required_objects, placed_objects, item, exported, required }) =>
                SavedContractObjective::BuildAndExport {
                required_objects: copy_objects(required_objects),
                placed_objects: copy_objects(placed_objects),
                item: *item,
                exported: *exported,
                required: *required,
            },
            Some(ContractObjective::Program { completed, required }) => SavedContractObjective::Program {
                completed: *completed,
                required: *required,
            },
        }
    }

    /// Restores a saved contract, refusing progress that no play could reach.
    pub fn from_saved(
        id: Option<ContractId>,
        requirement: String,
        reward: u64,
        company: ContractCompany,
        experience_reward: u32,
        objective: SavedContractObjective,
    ) -> (contract: Option<Self>)
        ensures
            contract is Some == saved_valid(objective),
            contract matches Some(contract) ==> loaded_from(
                contract,
                id,
                requirement@,
                reward,
                company,
                experience_reward,
                objective,
            ),
    {
        let objective = match objective {
            SavedContractObjective::Absent => None,
            SavedContractObjective::ExportItems { item, exported, required } => {
                if required > 0 && exported <= required {
                    Some(ContractObjective::ExportItems { item, exported, required })
                } else {
                    return None;
                }
            },
            SavedContractObjective::MineItems { item, mined, required } => {
                if required > 0 && mined <= required {
                    Some(ContractObjective::MineItems { item, mined, required })
                } else {
                    return None;
                }
            },
            SavedContractObjective::BuildAndExport { required_objects, placed_objects, item, exported, required } => {
                if required_objects.len() > 0 && placed_objects.len() <= required_objects.len() && required > 0
                    && exported <= required {
                    Some(ContractObjective::BuildAndExport { required_objects, placed_objects, item, exported, required })
                } else {
                    return None;
                }
            },
            SavedContractObjective::Program { completed, required } => {
                if required > 0 && completed <= required {
                    Some(ContractObjective::Program { completed, required })
                } else {
                    return None;
                }
            },
        };
        Some(Contract { id, requirement, reward, company, experience_reward, objective })
    }

    fn contribute(&mut self, shipment: Shipment, item: ItemId, available: u64) -> (result: (u64, bool))
        ensures
            ({
                let expected = contribute_spec(old(self).spec_objective(), shipment, item, available);
                *final(self) == old(self).with_objective(expected.0) && result == (expected.1, expected.2)
            }),
    {
        let objective = self.objective.take();
        let (objective, taken, completed) = contribute_objective(objective, shipment, item, available);
        self.objective = objective;
        (taken, completed)
    }

    /// Assigns up to `available` exported items of `item` to this contract.
    fn contribute_export(&mut self, item: ItemId, available: u64) -> (result: ContractExportResult)
        ensures
            ({
                let expected = contribute_spec(old(self).spec_objective(), Shipment::Exported, item, available);
                &&& *final(self) == old(self).with_objective(expected.0)
                &&& result.contributed == expected.1
                &&& result.completed_contracts == (if expected.2 { 1usize } else { 0usize })
            }),
    {
        let (contributed, completed) = self.contribute(Shipment::Exported, item, available);
        ContractExportResult { contributed, completed_contracts: if completed { 1 } else { 0 } }
    }

    /// Assigns up to `available` mined items of `item` to this contract.
    fn contribute_mined(&mut self, item: ItemId, available: u64) -> (result: ContractProgressResult)
        ensures
            ({
                let expected = contribute_spec(old(self).spec_objective(), Shipment::Mined, item, available);
                &&& *final(self) == old(self).with_objective(expected.0)
                &&& result.contributed == expected.1
                &&& result.completed_contracts == (if expected.2 { 1usize } else { 0usize })
            }),
    {
        let (contributed, completed) = self.contribute(Shipment::Mined, item, available);
        ContractProgressResult { contributed, completed_contracts: if completed { 1 } else { 0 } }
    }

    /// Records one placed object when the contract still needs that kind.
    fn contribute_placement(&mut self, object_type: ObjectTypeId) -> (result: ContractProgressResult)
        ensures
            result.contributed <= 1,
            *final(self) == old(self).with_objective(final(self).spec_objective()),
            placement_spec(old(self).spec_objective(), final(self).spec_objective(), object_type, result.contributed == 1),
            result.completed_contracts == (if result.contributed == 1 && !objective_complete(old(self).spec_objective())
                && objective_complete(final(self).spec_objective()) {
                1usize
            } else {
                0usize
            }),
    {
        let was_complete = self.is_complete();
        let objective = self.objective.take();
        match objective {
            Some(ContractObjective::BuildAndExport { required_objects, mut placed_objects, item, exported, required }) => {
                let required_count = count_objects(&required_objects, object_type);
                let placed_count = count_objects(&placed_objects, object_type);
                if placed_count >= required_count {
                    self.objective = Some(ContractObjective::BuildAndExport { required_objects, placed_objects, item, exported, required });
                    return ContractProgressResult { contributed: 0, completed_contracts: 0 };
                }
                placed_objects.push(object_type);
                self.objective = Some(ContractObjective::BuildAndExport { required_objects, placed_objects, item, exported, required });
                let now_complete = self.is_complete();
                ContractProgressResult {
                    contributed: 1,
                    completed_contracts: if !was_complete && now_complete { 1 } else { 0 },
                }
            },
            other => {
                self.objective = other;
                ContractProgressResult { contributed: 0, completed_contracts: 0 }
            },
        }
    }

    /// Raises programme progress; true when this call completed the mission.
    fn set_program_progress(&mut self, completed: u16, required: u16) -> (just_completed: bool)
        ensures
            ({
                let expected = program_progress_spec(old(self).spec_objective(), completed, required);
                *final(self) == old(self).with_objective(expected.0) && just_completed == expected.1
            }),
    {
        let objective = self.objective.take();
        match objective {
            Some(ContractObjective::Program { completed: current, required: expected }) => {
                if expected != required {
                    self.objective = Some(ContractObjective::Program { completed: current, required: expected });
                    return false;
                }
                let was_complete = current >= expected;
                let capped = if completed < required { completed } else { required };
                let raised = if capped > current { capped } else { current };
                self.objective = Some(ContractObjective::Program { completed: raised, required: expected });
                !was_complete && raised >= expected
            },
            other => {
                self.objective = other;
                false
            },
        }
    }
}

/// The saved form of an objective has the same contents.
pub open spec fn saved_matches(objective: Option<ContractObjective>, saved: SavedContractObjective) -> bool {
    match (objective, saved) {
        (None, SavedContractObjective::Absent) => true,
        (
            Some(ContractObjective::ExportItems { item, exported, required }),
            SavedContractObjective::ExportItems { item: saved_item, exported: saved_exported, required: saved_required },
        ) => item == saved_item && exported == saved_exported && required == saved_required,
        (
            Some(ContractObjective::MineItems { item, mined, required }),
            SavedContractObjective::MineItems { item: saved_item, mined: saved_mined, required: saved_required },
        ) => item == saved_item && mined == saved_mined && required == saved_required,
        (
            Some(ContractObjective::BuildAndExport { required_objects, placed_objects, item, exported, required }),
            SavedContractObjective::BuildAndExport {
                required_objects: saved_required_objects,
                placed_objects: saved_placed_objects,
                item: saved_item,
                exported: saved_exported,
                required: saved_required,
            },
        ) => required_objects@ == saved_required_objects@ && placed_objects@ == saved_placed_objects@
            && item == saved_item && exported == saved_exported && required == saved_required,
        (
            Some(ContractObjective::Program { completed, required }),
            SavedContractObjective::Program { completed: saved_completed, required: saved_required },
        ) => completed == saved_completed && required == saved_required,
        _ => false,
    }
}

/// Saved progress that play could have produced: a positive target not
/// yet exceeded, and no more placements than required objects.
pub open spec fn saved_valid(saved: SavedContractObjective) -> bool {
    match saved {
        SavedContractObjective::Absent => true,
        SavedContractObjective::ExportItems { exported, required, .. } => required > 0 && exported <= required,
        SavedContractObjective::MineItems { mined, required, .. } => required > 0 && mined <= required,
        SavedContractObjective::BuildAndExport { required_objects, placed_objects, exported, required, .. } =>
            required_objects@.len() > 0 && placed_objects@.len() <= required_objects@.len() && required > 0
            && exported <= required,
        SavedContractObjective::Program { completed, required } => required > 0 && completed <= required,
    }
}

/// Objectives that play can produce: a positive target not yet exceeded,
/// and no more placements than required objects.
pub open spec fn objective_valid(objective: Option<ContractObjective>) -> bool {
    match objective {
        None => true,
        Some(ContractObjective::ExportItems { exported, required, .. }) => required > 0 && exported <= required,
        Some(ContractObjective::MineItems { mined, required, .. }) => required > 0 && mined <= required,
        Some(ContractObjective::BuildAndExport { required_objects, placed_objects, exported, required, .. }) =>
            required_objects@.len() > 0 && placed_objects@.len() <= required_objects@.len() && required > 0
            && exported <= required,
        Some(ContractObjective::Program { completed, required }) => required > 0 && completed <= required,
    }
}

/// Two objectives with the same contents.
pub open spec fn same_objective(a: Option<ContractObjective>, b: Option<ContractObjective>) -> bool {
    match (a, b) {
        (None, None) => true,
        (
            Some(ContractObjective::ExportItems { item, exported, required }),
            Some(ContractObjective::ExportItems { item: other_item, exported: other_exported, required: other_required }),
        ) => item == other_item && exported == other_exported && required == other_required,
        (
            Some(ContractObjective::MineItems { item, mined, required }),
            Some(ContractObjective::MineItems { item: other_item, mined: other_mined, required: other_required }),
        ) => item == other_item && mined == other_mined && required == other_required,
        (
            Some(ContractObjective::BuildAndExport { required_objects, placed_objects, item, exported, required }),
            Some(
                ContractObjective::BuildAndExport {
                    required_objects: other_required_objects,
                    placed_objects: other_placed_objects,
                    item: other_item,
                    exported: other_exported,
                    required: other_required,
                },
            ),
        ) => required_objects@ == other_required_objects@ && placed_objects@ == other_placed_objects@ && item
            == other_item && exported == other_exported && required == other_required,
        (
            Some(ContractObjective::Program { completed, required }),
            Some(ContractObjective::Program { completed: other_completed, required: other_required }),
        ) => completed == other_completed && required == other_required,
        _ => false,
    }
}

/// An objective that play keeps loadable: valid, and no object placed more
/// often than it is required.
pub open spec fn objective_sound(objective: Option<ContractObjective>) -> bool {
    &&& objective_valid(objective)
    &&& objective matches Some(ContractObjective::BuildAndExport { required_objects, placed_objects, .. }) ==> forall|
        object: ObjectTypeId,
    | #[trigger] occurrences(placed_objects@, object) <= occurrences(required_objects@, object)
}

proof fn lemma_occurrences_remove(s: Seq<ObjectTypeId>, k: int, object: ObjectTypeId)
    requires
        0 <= k < s.len(),
    ensures
        occurrences(s, object) == occurrences(s.remove(k), object) + if s[k] == object { 1nat } else { 0nat },
    decreases s.len(),
{
    if k > 0 {
        lemma_occurrences_remove(s.drop_first(), k - 1, object);
        assert(s.remove(k).drop_first() =~= s.drop_first().remove(k - 1));
        assert(s.remove(k)[0] == s[0]);
    } else {
        assert(s.remove(0) =~= s.drop_first());
    }
}

proof fn lemma_occurrences_found(s: Seq<ObjectTypeId>, object: ObjectTypeId) -> (k: int)
    requires
        occurrences(s, object) > 0,
    ensures
        0 <= k < s.len(),
        s[k] == object,
    decreases s.len(),
{
    if s[0] == object {
        0
    } else {
        let k = lemma_occurrences_found(s.drop_first(), object);
        k + 1
    }
}

/// A list that holds each object at most as often as another is no longer.
proof fn lemma_occurrences_len(placed: Seq<ObjectTypeId>, required: Seq<ObjectTypeId>)
    requires
        forall|object: ObjectTypeId| #[trigger] occurrences(placed, object) <= occurrences(required, object),
    ensures
        placed.len() <= required.len(),
    decreases placed.len(),
{
    if placed.len() > 0 {
        let first = placed[0];
        assert(occurrences(placed, first) >= 1);
        let k = lemma_occurrences_found(required, first);
        let rest = required.remove(k);
        assert forall|object: ObjectTypeId| #[trigger] occurrences(placed.drop_first(), object) <= occurrences(
            rest,
            object,
        ) by {
            lemma_occurrences_remove(required, k, object);
            assert(occurrences(placed, object) <= occurrences(required, object));
        }
        lemma_occurrences_len(placed.drop_first(), rest);
    }
}

/// Every step of play keeps contracts loadable: an objective that play can
/// produce, after a shipment, a placement or programme progress, is still
/// one that play can produce (and its saved form loads again).
pub proof fn law_progress_keeps_contracts_loadable(
    objective: Option<ContractObjective>,
    shipment: Shipment,
    item: ItemId,
    available: u64,
    placed: Option<ContractObjective>,
    object: ObjectTypeId,
    counted: bool,
    completed: u16,
    required: u16,
)
    requires
        objective_sound(objective),
        placement_spec(objective, placed, object, counted),
    ensures
        objective_sound(contribute_spec(objective, shipment, item, available).0),
        objective_sound(placed),
        objective_sound(program_progress_spec(objective, completed, required).0),
{
    if let Some(ContractObjective::BuildAndExport { required_objects, placed_objects, .. }) = objective {
        if counted {
            if let Some(ContractObjective::BuildAndExport { required_objects: new_required, placed_objects: new_placed, .. }) = placed {
                assert forall|x: ObjectTypeId| #[trigger] occurrences(new_placed@, x) <= occurrences(new_required@, x) by {
                    lemma_occurrences_append(placed_objects@, seq![object], x);
                    assert(placed_objects@.push(object) =~= placed_objects@ + seq![object]);
                    assert(seq![object].drop_first() =~= Seq::<ObjectTypeId>::empty());
                    reveal_with_fuel(occurrences, 2);
                    assert(occurrences(seq![object], x) == if seq![object][0] == x { 1nat } else { 0nat });
                    assert(occurrences(placed_objects@, x) <= occurrences(required_objects@, x));
                    assert(occurrences(placed_objects@, object) < occurrences(required_objects@, object));
                }
                lemma_occurrences_len(new_placed@, new_required@);
            }
        }
    }
}

/// A contract saved and loaded again comes back as it was: the saved form
/// of an objective that play can produce is accepted on loading, and the
/// objective loaded from it has the same contents. (`from_saved` keeps the
/// identifier, requirement, reward, company and experience it is given.)
pub proof fn law_saved_contract_restores(
    objective: Option<ContractObjective>,
    saved: SavedContractObjective,
    restored: Option<ContractObjective>,
)
    requires
        objective_valid(objective),
        saved_matches(objective, saved),
        saved_matches(restored, saved),
    ensures
        saved_valid(saved),
        same_objective(restored, objective),
{
}

/// A contract loaded from saved fields holds them: the identifier,
/// requirement, reward, company and experience as given, and the objective
/// the saved form describes.
pub open spec fn loaded_from(
    contract: Contract,
    id: Option<ContractId>,
    requirement: Seq<char>,
    reward: u64,
    company: ContractCompany,
    experience_reward: u32,
    saved: SavedContractObjective,
) -> bool {
    &&& contract.spec_id() == id
    &&& contract.spec_requirement() == requirement
    &&& contract.spec_reward() == reward
    &&& contract.spec_company() == company
    &&& contract.spec_experience_reward() == experience_reward
    &&& saved_matches(contract.spec_objective(), saved)
}

/// Two contracts with the same identifier, requirement, reward, company,
/// experience and objective contents.
pub open spec fn same_contract(a: Contract, b: Contract) -> bool {
    &&& a.spec_id() == b.spec_id()
    &&& a.spec_requirement() == b.spec_requirement()
    &&& a.spec_reward() == b.spec_reward()
    &&& a.spec_company() == b.spec_company()
    &&& a.spec_experience_reward() == b.spec_experience_reward()
    &&& same_objective(a.spec_objective(), b.spec_objective())
}

/// A contract that play can produce: its objective has a positive target
/// not yet exceeded and no more placements than required objects.
pub open spec fn contract_reachable(contract: Contract) -> bool {
    objective_valid(contract.spec_objective())
}

/// A whole contract saved and loaded again comes back as it was: loading
/// from its own fields and the saved form of its objective succeeds, and
/// every contract so loaded has the same fields and objective contents.
pub proof fn law_saved_whole_contract_restores(
    contract: Contract,
    saved: SavedContractObjective,
    restored: Contract,
)
    requires
        contract_reachable(contract),
        saved_matches(contract.spec_objective(), saved),
        loaded_from(
            restored,
            contract.spec_id(),
            contract.spec_requirement(),
            contract.spec_reward(),
            contract.spec_company(),
            contract.spec_experience_reward(),
            saved,
        ),
    ensures
        saved_valid(saved),
        same_contract(restored, contract),
{
    law_saved_contract_restores(contract.spec_objective(), saved, restored.spec_objective());
}

/// The objectives of a run of contracts.
pub open spec fn objectives_of(contracts: Seq<Contract>) -> Seq<Option<ContractObjective>> {
    contracts.map_values(|contract: Contract| contract.spec_objective())
}

/// Distributes one shipment over contracts in order; returns the items
/// taken and the contracts completed.
fn apply_shipment(contracts: &mut Vec<Contract>, shipment: Shipment, item: ItemId, quantity: u64) -> (result: (u64, usize))
    ensures
        ({
            let expected = distribute_spec(objectives_of(old(contracts)@), shipment, item, quantity);
            &&& final(contracts)@.len() == old(contracts)@.len()
            &&& forall|i: int|
                0 <= i < old(contracts)@.len() ==> #[trigger] final(contracts)@[i] == old(contracts)@[i].with_objective(
                    expected.0[i],
                )
            &&& result.0 == expected.1
            &&& result.1 == expected.2
        }),
{
    let ghost original = contracts@;
    let ghost all = objectives_of(original);
    let mut contributed: u64 = 0;
    let mut completed: usize = 0;
    let mut index: usize = 0;
    assert(all.take(0) =~= Seq::<Option<ContractObjective>>::empty());
    while index < contracts.len()
        invariant
            all == objectives_of(original),
            contracts@.len() == original.len(),
            index <= original.len(),
            contributed == distribute_spec(all.take(index as int), shipment, item, quantity).1,
            completed == distribute_spec(all.take(index as int), shipment, item, quantity).2,
            forall|i: int|
                0 <= i < index ==> #[trigger] contracts@[i] == original[i].with_objective(
                    distribute_spec(all.take(index as int), shipment, item, quantity).0[i],
                ),
            forall|i: int| index <= i < original.len() ==> #[trigger] contracts@[i] == original[i],
        decreases original.len() - index,
    {
        let ghost prefix = all.take(index as int);
        let ghost before = distribute_spec(prefix, shipment, item, quantity);
        proof {
            lemma_distribute_append(prefix, Seq::<Option<ContractObjective>>::empty(), shipment, item, quantity);
        }
        let (taken, done) = contracts[index].contribute(shipment, item, quantity - contributed);
        proof {
            let single = seq![all[index as int]];
            assert(all.take(index + 1) =~= prefix + single);
            assert(all[index as int] == original[index as int].spec_objective());
            lemma_distribute_append(prefix, single, shipment, item, quantity);
            assert(single.drop_first() =~= Seq::<Option<ContractObjective>>::empty());
            reveal_with_fuel(distribute_spec, 2);
            let after = distribute_spec(all.take(index + 1), shipment, item, quantity);
            assert forall|i: int| 0 <= i <= index implies #[trigger] contracts@[i] == original[i].with_objective(after.0[i]) by {
                if i < index {
                    assert(after.0[i] == before.0[i]);
                }
            }
            lemma_distribute_append(all.take(index + 1), Seq::<Option<ContractObjective>>::empty(), shipment, item, quantity);
        }
        contributed = contributed + taken;
        completed = completed + if done { 1 } else { 0 };
        index = index + 1;
    }
    assert(all.take(original.len() as int) =~= all);
    (contributed, completed)
}


/// Distributes mined items over contracts in order; each item counts at
/// most once, towards the first unfinished mining contract that wants it.
pub fn apply_mined_to_contracts(contracts: &mut Vec<Contract>, item: ItemId, quantity: u64) -> (result: ContractProgressResult)
    ensures
        ({
            let expected = distribute_spec(objectives_of(old(contracts)@), Shipment::Mined, item, quantity);
            &&& final(contracts)@.len() == old(contracts)@.len()
            &&& forall|i: int|
                0 <= i < old(contracts)@.len() ==> #[trigger] final(contracts)@[i] == old(contracts)@[i].with_objective(
                    expected.0[i],
                )
            &&& result.contributed == expected.1
            &&& result.completed_contracts == expected.2
        }),
        result.contributed <= quantity,
{
    proof {
        lemma_distribute_append(objectives_of(contracts@), Seq::empty(), Shipment::Mined, item, quantity);
    }
    let (contributed, completed_contracts) = apply_shipment(contracts, Shipment::Mined, item, quantity);
    ContractProgressResult { contributed, completed_contracts }
}

/// Assigns one shipment across matching contracts in display order. Each item
/// contributes at most once, even when several contracts request the same item.
pub fn apply_export_to_contracts(contracts: &mut Vec<Contract>, item: ItemId, quantity: u64) -> (result: ContractExportResult)
    ensures
        ({
            let expected = distribute_spec(objectives_of(old(contracts)@), Shipment::Exported, item, quantity);
            &&& final(contracts)@.len() == old(contracts)@.len()
            &&& forall|i: int|
                0 <= i < old(contracts)@.len() ==> #[trigger] final(contracts)@[i] == old(contracts)@[i].with_objective(
                    expected.0[i],
                )
            &&& result.contributed == expected.1
            &&& result.completed_contracts == expected.2
        }),
        result.contributed <= quantity,
{
    proof {
        lemma_distribute_append(objectives_of(contracts@), Seq::empty(), Shipment::Exported, item, quantity);
    }
    let (contributed, completed_contracts) = apply_shipment(contracts, Shipment::Exported, item, quantity);
    ContractExportResult { contributed, completed_contracts }
}

/// How many contracts in a run were accepted by the player rather than
/// issued by the programme (those carry no identifier).
pub open spec fn player_contract_count(contracts: Seq<Contract>) -> nat
    decreases contracts.len(),
{
    if contracts.len() == 0 {
        0
    } else {
        (if contracts[0].spec_id() is None {
            1nat
        } else {
            0nat
        }) + player_contract_count(contracts.drop_first())
    }
}

pub proof fn lemma_player_count_append(a: Seq<Contract>, b: Seq<Contract>)
    ensures
        player_contract_count(a + b) == player_contract_count(a) + player_contract_count(b),
    decreases a.len(),
{
    if a.len() == 0 {
        assert(a + b =~= b);
    } else {
        assert((a + b)[0] == a[0]);
        assert((a + b).drop_first() =~= a.drop_first() + b);
        lemma_player_count_append(a.drop_first(), b);
    }
}

/// No two contracts in a run carry the same identifier.
pub open spec fn unique_ids(contracts: Seq<Contract>) -> bool {
    forall|i: int, j: int|
        0 <= i < j < contracts.len() && contracts[i].spec_id() is Some ==> #[trigger] contracts[i].spec_id()
            != #[trigger] contracts[j].spec_id()
}

/// The first contract in a run carrying `id`.
pub open spec fn is_first_with_id(contracts: Seq<Contract>, id: ContractId, index: int) -> bool {
    &&& 0 <= index < contracts.len()
    &&& contracts[index].spec_id() == Some(id)
    &&& forall|i: int| 0 <= i < index ==> #[trigger] contracts[i].spec_id() != Some(id)
}

pub open spec fn has_id(contracts: Seq<Contract>, id: ContractId) -> bool {
    exists|i: int| 0 <= i < contracts.len() && #[trigger] contracts[i].spec_id() == Some(id)
}

/// The reward paid out for a completed contract.
#[derive(Clone, Copy, Debug, PartialEq, Eq, Structural)]
pub struct ContractReward {
    pub money: u64,
    pub company: ContractCompany,
    pub experience: u32,
}

/// The contracts on offer and the contracts accepted.
#[derive(Clone, Debug, PartialEq, Eq)]
pub struct ContractBoard {
    available: Vec<Contract>,
    active: Vec<Contract>,
}

fn find_with_id(contracts: &Vec<Contract>, id: ContractId) -> (index: Option<usize>)
    ensures
        match index {
            Some(index) => is_first_with_id(contracts@, id, index as int),
            None => !has_id(contracts@, id),
        },
{
    let mut index: usize = 0;
    while index < contracts.len()
        invariant
            index <= contracts@.len(),
            forall|i: int| 0 <= i < index ==> #[trigger] contracts@[i].spec_id() != Some(id),
        decreases contracts@.len() - index,
    {
        if contracts[index].id() == Some(id) {
            return Some(index);
        }
        index = index + 1;
    }
    None
}

impl ContractBoard {
    pub closed spec fn spec_available(&self) -> Seq<Contract> {
        self.available@
    }

    pub closed spec fn spec_active(&self) -> Seq<Contract> {
        self.active@
    }

    /// A board offering the given contracts with none accepted.
    pub fn new(available: Vec<Contract>) -> (board: Self)
        ensures
            board.spec_available() == available@,
            board.spec_active().len() == 0,
    {
        ContractBoard { available, active: Vec::new() }
    }

    /// A board offering the built-in contracts.
    pub fn with_built_ins() -> (board: Self)
        ensures
            built_in_contracts_spec(board.spec_available()),
            board.spec_active().len() == 0,
    {
        Self::new(built_in_contracts())
    }

    pub fn available(&self) -> (available: &[Contract])
        ensures
            available@ == self.spec_available(),
    {
        self.available.as_slice()
    }

    pub fn active(&self) -> (active: &[Contract])
        ensures
            active@ == self.spec_active(),
    {
        self.active.as_slice()
    }

    /// Restores a saved board, refusing one whose active contracts repeat an
    /// identifier.
    pub fn from_saved(available: Vec<Contract>, active: Vec<Contract>) -> (board: Option<Self>)
        ensures
            board is Some == unique_ids(active@),
            board matches Some(board) ==> board.spec_available() == available@ && board.spec_active()
                == active@,
    {
        let mut later: usize = 0;
        while later < active.len()
            invariant
                later <= active@.len(),
                forall|i: int, j: int|
                    0 <= i < j < later && active@[i].spec_id() is Some ==> #[trigger] active@[i].spec_id()
                        != #[trigger] active@[j].spec_id(),
            decreases active@.len() - later,
        {
            if let Some(id) = active[later].id() {
                let mut earlier: usize = 0;
                while earlier < later
                    invariant
                        later < active@.len(),
                        earlier <= later,
                        active@[later as int].spec_id() == Some(id),
                        forall|i: int| 0 <= i < earlier ==> #[trigger] active@[i].spec_id() != Some(id),
                    decreases later - earlier,
                {
                    if active[earlier].id() == Some(id) {
                        return None;
                    }
                    earlier = earlier + 1;
                }
            }
            later = later + 1;
        }
        Some(ContractBoard { available, active })
    }

    /// Adds a contract at the top of the active list. A contract whose
    /// identifier is already active is not added twice; it only replaces an
    /// active copy that lacks programme progress when it has some.
    pub fn add_active(&mut self, contract: Contract)
        ensures
            final(self).spec_available() == old(self).spec_available(),
            match contract.spec_id() {
                Some(id) => if has_id(old(self).spec_active(), id) {
                    exists|index: int|
                        #[trigger] is_first_with_id(old(self).spec_active(), id, index) && final(self).spec_active() == if !(
                        old(self).spec_active()[index].spec_objective() matches Some(
                            ContractObjective::Program { .. },
                        )) && (contract.spec_objective() matches Some(ContractObjective::Program { .. })) {
                            old(self).spec_active().update(index, contract)
                        } else {
                            old(self).spec_active()
                        }
                } else {
                    final(self).spec_active() == seq![contract] + old(self).spec_active()
                },
                None => final(self).spec_active() == seq![contract] + old(self).spec_active(),
            },
    {
        if let Some(id) = contract.id() {
            if let Some(index) = find_with_id(&self.active, id) {
                if self.active[index].program_progress().is_none() && contract.program_progress().is_some() {
                    self.active.set(index, contract);
                }
                return ;
            }
        }
        self.active.insert(0, contract);
        assert(self.active@ =~= seq![contract] + old(self).active@);
    }

    /// The first active contract carrying `id`.
    pub fn active_contract(&self, id: ContractId) -> (contract: Option<&Contract>)
        ensures
            match contract {
                Some(contract) => exists|index: int|
                    #[trigger] is_first_with_id(self.spec_active(), id, index) && *contract == self.spec_active()[index],
                None => !has_id(self.spec_active(), id),
            },
    {
        match find_with_id(&self.active, id) {
            Some(index) => {
                let found = &self.active[index];
                assert(is_first_with_id(self.spec_active(), id, index as int) && *found == self.spec_active()[index as int]);
                Some(found)
            },
            None => None,
        }
    }

    pub fn contains_active(&self, id: ContractId) -> (contains: bool)
        ensures
            contains == has_id(self.spec_active(), id),
    {
        self.active_contract(id).is_some()
    }

    /// Raises the programme progress of the first active contract carrying
    /// `id`; true when this completed it.
    pub fn set_program_progress(&mut self, id: ContractId, completed: u16, required: u16) -> (just_completed: bool)
        ensures
            final(self).spec_available() == old(self).spec_available(),
            !has_id(old(self).spec_active(), id) ==> !just_completed && final(self).spec_active() == old(
                self,
            ).spec_active(),
            has_id(old(self).spec_active(), id) ==> exists|index: int|
                #[trigger] is_first_with_id(old(self).spec_active(), id, index) && ({
                    let expected = program_progress_spec(
                        old(self).spec_active()[index].spec_objective(),
                        completed,
                        required,
                    );
                    final(self).spec_active() == old(self).spec_active().update(
                        index,
                        old(self).spec_active()[index].with_objective(expected.0),
                    ) && just_completed == expected.1
                }),
    {
        match find_with_id(&self.active, id) {
            Some(index) => {
                let just_completed = self.active[index].set_program_progress(completed, required);
                assert(self.active@ =~= old(self).active@.update(
                    index as int,
                    self.active@[index as int],
                ));
                just_completed
            },
            None => false,
        }
    }

    /// Moves an offered contract to the end of the active list, unless the
    /// index is invalid or the player already holds the maximum number of
    /// contracts.
    pub fn accept(&mut self, available_index: usize) -> (result: Result<(), AcceptContractError>)
        ensures
            available_index >= old(self).spec_available().len() ==> result == Err::<(), AcceptContractError>(
                AcceptContractError::InvalidContract,
            ),
            available_index < old(self).spec_available().len() && player_contract_count(old(self).spec_active())
                >= MAX_ACTIVE_CONTRACTS ==> result == Err::<(), AcceptContractError>(
                AcceptContractError::ActiveLimitReached,
            ),
            available_index < old(self).spec_available().len() && player_contract_count(old(self).spec_active())
                < MAX_ACTIVE_CONTRACTS ==> result is Ok,
            result is Err ==> final(self).spec_available() == old(self).spec_available() && final(self).spec_active()
                == old(self).spec_active(),
            result is Ok ==> available_index < old(self).spec_available().len() && player_contract_count(
                old(self).spec_active(),
            ) < MAX_ACTIVE_CONTRACTS && final(self).spec_available() == old(self).spec_available().remove(
                available_index as int,
            ) && final(self).spec_active() == old(self).spec_active().push(
                old(self).spec_available()[available_index as int],
            ),
    {
        if available_index >= self.available.len() {
            return Err(AcceptContractError::InvalidContract);
        }
        let mut players: usize = 0;
        let mut index: usize = 0;
        let ghost active = self.active@;
        assert(active.take(0) =~= Seq::<Contract>::empty());
        while index < self.active.len()
            invariant
                active == self.active@,
                index <= active.len(),
                players == player_contract_count(active.take(index as int)),
                players <= index,
            decreases active.len() - index,
        {
            proof {
                let single = seq![active[index as int]];
                assert(active.take(index + 1) =~= active.take(index as int) + single);
                lemma_player_count_append(active.take(index as int), single);
                assert(single.drop_first() =~= Seq::<Contract>::empty());
                reveal_with_fuel(player_contract_count, 2);
            }
            if self.active[index].id().is_none() {
                players = players + 1;
            }
            index = index + 1;
        }
        assert(active.take(active.len() as int) =~= active);
        if players >= MAX_ACTIVE_CONTRACTS {
            return Err(AcceptContractError::ActiveLimitReached);
        }
        let contract = self.available.remove(available_index);
        self.active.push(contract);
        Ok(())
    }

    /// Assigns a shipment to the active contracts.
    pub fn apply_export(&mut self, item: ItemId, quantity: u64) -> (result: ContractExportResult)
        ensures
            final(self).spec_available() == old(self).spec_available(),
            ({
                let expected = distribute_spec(objectives_of(old(self).spec_active()), Shipment::Exported, item, quantity);
                &&& final(self).spec_active().len() == old(self).spec_active().len()
                &&& forall|i: int|
                    0 <= i < old(self).spec_active().len() ==> #[trigger] final(self).spec_active()[i] == old(
                        self,
                    ).spec_active()[i].with_objective(expected.0[i])
                &&& result.contributed == expected.1
                &&& result.completed_contracts == expected.2
            }),
            result.contributed <= quantity,
    {
        apply_export_to_contracts(&mut self.active, item, quantity)
    }

    /// Assigns mined items to the active contracts.
    pub fn apply_mined(&mut self, item: ItemId, quantity: u64) -> (result: ContractProgressResult)
        ensures
            final(self).spec_available() == old(self).spec_available(),
            ({
                let expected = distribute_spec(objectives_of(old(self).spec_active()), Shipment::Mined, item, quantity);
                &&& final(self).spec_active().len() == old(self).spec_active().len()
                &&& forall|i: int|
                    0 <= i < old(self).spec_active().len() ==> #[trigger] final(self).spec_active()[i] == old(
                        self,
                    ).spec_active()[i].with_objective(expected.0[i])
                &&& result.contributed == expected.1
                &&& result.completed_contracts == expected.2
            }),
            result.contributed <= quantity,
    {
        apply_mined_to_contracts(&mut self.active, item, quantity)
    }

    /// Records a placed object on every active contract that still needs it.
    pub fn apply_placement(&mut self, object_type: ObjectTypeId) -> (result: ContractProgressResult)
        ensures
            final(self).spec_available() == old(self).spec_available(),
            final(self).spec_active().len() == old(self).spec_active().len(),
            forall|i: int|
                0 <= i < old(self).spec_active().len() ==> exists|counted: bool|
                    placement_spec(
                        old(self).spec_active()[i].spec_objective(),
                        #[trigger] final(self).spec_active()[i].spec_objective(),
                        object_type,
                        counted,
                    ) && final(self).spec_active()[i] == old(self).spec_active()[i].with_objective(
                        final(self).spec_active()[i].spec_objective(),
                    ),
            result.contributed == placements_counted(old(self).spec_active(), object_type, old(self).spec_active().len() as int),
            result.completed_contracts == placements_completed(
                old(self).spec_active(),
                final(self).spec_active(),
                object_type,
                old(self).spec_active().len() as int,
            ),
            result.contributed <= old(self).spec_active().len(),
            result.completed_contracts <= result.contributed,
    {
        let mut contributed: u64 = 0;
        let mut completed: usize = 0;
        let mut index: usize = 0;
        let ghost original = self.active@;
        while index < self.active.len()
            invariant
                self.active@.len() == original.len(),
                self.available@ == old(self).available@,
                original == old(self).active@,
                index <= original.len(),
                contributed <= index,
                completed <= contributed,
                contributed == placements_counted(original, object_type, index as int),
                completed == placements_completed(original, self.active@, object_type, index as int),
                forall|i: int| index <= i < original.len() ==> #[trigger] self.active@[i] == original[i],
                forall|i: int|
                    0 <= i < index ==> exists|counted: bool|
                        placement_spec(
                            original[i].spec_objective(),
                            #[trigger] self.active@[i].spec_objective(),
                            object_type,
                            counted,
                        ) && self.active@[i] == original[i].with_objective(self.active@[i].spec_objective()),
            decreases original.len() - index,
        {
            let ghost active_before = self.active@;
            let contribution = self.active[index].contribute_placement(object_type);
            proof {
                lemma_completed_prefix(original, active_before, self.active@, object_type, index as int);
                let counted = contribution.contributed == 1;
                assert(placement_spec(
                    original[index as int].spec_objective(),
                    self.active@[index as int].spec_objective(),
                    object_type,
                    counted,
                ));
            }
            contributed = contributed + contribution.contributed;
            completed = completed + contribution.completed_contracts;
            index = index + 1;
        }
        ContractProgressResult { contributed, completed_contracts: completed }
    }

    /// Pays out a completed active contract and removes it, so a reward can
    /// be collected only once.
    pub fn claim_reward(&mut self, active_index: usize) -> (result: Result<ContractReward, ClaimContractError>)
        ensures
            final(self).spec_available() == old(self).spec_available(),
            active_index >= old(self).spec_active().len() ==> result == Err::<ContractReward, ClaimContractError>(
                ClaimContractError::InvalidContract,
            ) && final(self).spec_active() == old(self).spec_active(),
            active_index < old(self).spec_active().len() ==> ({
                let contract = old(self).spec_active()[active_index as int];
                if objective_complete(contract.spec_objective()) {
                    result == Ok::<ContractReward, ClaimContractError>(
                        ContractReward {
                            money: contract.spec_reward(),
                            company: contract.spec_company(),
                            experience: contract.spec_experience_reward(),
                        },
                    ) && final(self).spec_active() == old(self).spec_active().remove(active_index as int)
                } else {
                    result == Err::<ContractReward, ClaimContractError>(ClaimContractError::Incomplete)
                        && final(self).spec_active() == old(self).spec_active()
                }
            }),
    {
        if active_index >= self.active.len() {
            return Err(ClaimContractError::InvalidContract);
        }
        if !self.active[active_index].is_complete() {
            return Err(ClaimContractError::Incomplete);
        }
        let contract = self.active.remove(active_index);
        Ok(ContractReward { money: contract.reward, company: contract.company, experience: contract.experience_reward })
    }
}

impl Default for ContractBoard {
    fn default() -> (board: Self)
        ensures
            board.spec_available().len() == 0,
            board.spec_active().len() == 0,
    {
        ContractBoard { available: Vec::new(), active: Vec::new() }
    }
}

/// The built-in export contracts: requirement, reward, company, item,
/// required quantity and experience reward.
pub open spec fn built_in_contract_table() -> Seq<(&'static str, u64, ContractCompany, ItemId, u64, u32)> {
    seq![
        ("DELIVER 50 STONE BLOCKS", 1_200u64, ContractCompany::DeepTekIndustries, ItemId::STONE_BLOCK, 50u64, 80u32),
        ("DELIVER 20 HARDENED COMPOSITE", 1_800u64, ContractCompany::VanguardDefence, ItemId::HARDENED_COMPOSITE, 20u64, 180u32),
        ("DELIVER 10 RED LIGHTS", 700u64, ContractCompany::AstraSurveyCorp, ItemId::RED_LIGHT, 10u64, 100u32),
        ("DELIVER 100 DIRT BLOCKS", 500u64, ContractCompany::DeepTekIndustries, ItemId::DIRT_BLOCK, 100u64, 120u32),
        ("DELIVER 2 BATTERIES", 3_000u64, ContractCompany::VanguardDefence, ItemId::BATTERY, 2u64, 250u32),
        ("DELIVER 1 RED SHAFT BORE", 6_000u64, ContractCompany::AstraSurveyCorp, ItemId::RED_SHAFT_BORE, 1u64, 350u32),
    ]
}

pub open spec fn built_in_contracts_spec(contracts: Seq<Contract>) -> bool {
    &&& contracts.len() == built_in_contract_table().len()
    &&& forall|i: int|
        0 <= i < contracts.len() ==> {
            let (requirement, reward, company, item, required, experience) = built_in_contract_table()[i];
            &&& (#[trigger] contracts[i]).spec_id() is None
            &&& contracts[i].spec_requirement() == requirement@
            &&& contracts[i].spec_reward() == reward
            &&& contracts[i].spec_company() == company
            &&& contracts[i].spec_experience_reward() == experience
            &&& contracts[i].spec_objective() == Some(ContractObjective::ExportItems { item, exported: 0, required })
        }
}

/// The export contracts offered from the start of a game.
pub fn built_in_contracts() -> (contracts: Vec<Contract>)
    ensures
        built_in_contracts_spec(contracts@),
{
    let contracts = vec![
        Contract::export_items("DELIVER 50 STONE BLOCKS", 1_200, ContractCompany::DeepTekIndustries, ItemId::STONE_BLOCK, 50)
            .with_experience_reward(80),
        Contract::export_items("DELIVER 20 HARDENED COMPOSITE", 1_800, ContractCompany::VanguardDefence, ItemId::HARDENED_COMPOSITE, 20)
            .with_experience_reward(180),
        Contract::export_items("DELIVER 10 RED LIGHTS", 700, ContractCompany::AstraSurveyCorp, ItemId::RED_LIGHT, 10)
            .with_experience_reward(100),
        Contract::export_items("DELIVER 100 DIRT BLOCKS", 500, ContractCompany::DeepTekIndustries, ItemId::DIRT_BLOCK, 100)
            .with_experience_reward(120),
        Contract::export_items("DELIVER 2 BATTERIES", 3_000, ContractCompany::VanguardDefence, ItemId::BATTERY, 2)
            .with_experience_reward(250),
        Contract::export_items("DELIVER 1 RED SHAFT BORE", 6_000, ContractCompany::AstraSurveyCorp, ItemId::RED_SHAFT_BORE, 1)
            .with_experience_reward(350),
    ];
    contracts
}

/// The items a run of objectives has counted so far for one shipment kind
/// and item.
pub open spec fn counted_items(objectives: Seq<Option<ContractObjective>>, shipment: Shipment, item: ItemId) -> nat
    decreases objectives.len(),
{
    if objectives.len() == 0 {
        0
    } else {
        (match shipment_counter(objectives[0], shipment, item) {
            Some((count, _)) => count as nat,
            None => 0nat,
        }) + counted_items(objectives.drop_first(), shipment, item)
    }
}

/// A shipment is counted at most once: the objectives together gain exactly
/// the items taken, never more than were shipped, and the counters of every
/// other item stay as they were.
pub proof fn law_shipment_counts_each_item_once(
    objectives: Seq<Option<ContractObjective>>,
    shipment: Shipment,
    item: ItemId,
    available: u64,
    other: ItemId,
)
    ensures
        ({
            let outcome = distribute_spec(objectives, shipment, item, available);
            &&& outcome.1 <= available
            &&& counted_items(outcome.0, shipment, item) == counted_items(objectives, shipment, item) + outcome.1
            &&& other != item ==> counted_items(outcome.0, shipment, other) == counted_items(
                objectives,
                shipment,
                other,
            )
        }),
    decreases objectives.len(),
{
    if objectives.len() > 0 {
        let head = contribute_spec(objectives[0], shipment, item, available);
        let rest = (available - head.1) as u64;
        law_shipment_counts_each_item_once(objectives.drop_first(), shipment, item, rest, other);
        let outcome = distribute_spec(objectives, shipment, item, available);
        let tail = distribute_spec(objectives.drop_first(), shipment, item, rest);
        assert(outcome.0[0] == head.0);
        assert(outcome.0.drop_first() =~= tail.0);
    }
}

/// The money still to be collected from the completed contracts of a run.
pub open spec fn claimable_money(active: Seq<Contract>) -> nat
    decreases active.len(),
{
    if active.len() == 0 {
        0
    } else {
        (if objective_complete(active[0].spec_objective()) {
            active[0].spec_reward() as nat
        } else {
            0nat
        }) + claimable_money(active.drop_first())
    }
}

/// A completed contract pays once: removing it on a claim lowers the money
/// still claimable by exactly its reward, so no second claim can pay it.
pub proof fn law_claimed_reward_is_paid_once(active: Seq<Contract>, index: int)
    requires
        0 <= index < active.len(),
        objective_complete(active[index].spec_objective()),
    ensures
        claimable_money(active.remove(index)) + active[index].spec_reward() == claimable_money(active),
    decreases active.len(),
{
    if index > 0 {
        law_claimed_reward_is_paid_once(active.drop_first(), index - 1);
        assert(active.remove(index)[0] == active[0]);
        assert(active.remove(index).drop_first() =~= active.drop_first().remove(index - 1));
    } else {
        assert(active.remove(0) =~= active.drop_first());
    }
}

/// Awarding experience never lowers a corporation level, and no level
/// passes the top one.
pub proof fn law_award_never_lowers_level(experience: u32, amount: u32)
    requires
        experience <= CORPORATION_LEVEL_THRESHOLDS[5],
    ensures
        level_for(experience) <= level_for(
            vstd::math::min(experience + amount, CORPORATION_LEVEL_THRESHOLDS[5] as int) as u32,
        ),
        level_for(experience) <= MAX_CORPORATION_LEVEL,
{
}

} // verus!
