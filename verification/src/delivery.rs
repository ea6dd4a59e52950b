use vstd::prelude::*;
use crate::components::Wallet;
use crate::contracts::{ContractCompany, CorporationProgress, level_for};
use crate::items::ItemId;

verus! {

/// Time from purchase to arrival: fifteen seconds.
pub const DELIVERY_DELAY_NANOS: u64 = 15_000_000_000;
/// Programme deliveries arrive after the same delay as purchases.
pub const PROGRAM_DELIVERY_DELAY_NANOS: u64 = DELIVERY_DELAY_NANOS;
/// Most deliveries that can wait at once.
pub const MAX_PENDING_DELIVERIES: usize = 1_024;

/// A machine that a corporation sells once the buyer's level with it is
/// high enough.
#[derive(Clone, Copy, Debug, PartialEq, Eq)]
pub struct MachineOffer {
    pub item: ItemId,
    pub company: ContractCompany,
    pub price: u64,
    pub minimum_company_level: u8,
    pub description: &'static str,
}

impl MachineOffer {
    pub open spec fn unlocked_spec(self, progress: CorporationProgress) -> bool {
        level_for(progress.spec_experience(self.company)) >= self.minimum_company_level
    }

    /// Whether the buyer's level with the selling company is high enough.
    pub fn is_unlocked(self, progress: CorporationProgress) -> (unlocked: bool)
        ensures
            unlocked == self.unlocked_spec(progress),
    {
        progress.level(self.company) >= self.minimum_company_level
    }

    /// Whether the offer is unlocked and affordable.
    pub fn can_purchase(self, progress: CorporationProgress, money: u64) -> (affordable: bool)
        ensures
            affordable == (self.unlocked_spec(progress) && money >= self.price),
    {
        self.is_unlocked(progress) && money >= self.price
    }
}

pub open spec fn offer_spec(
    item: ItemId,
    company: ContractCompany,
    price: u64,
    minimum_company_level: u8,
) -> (ItemId, ContractCompany, u64, u8) {
    (item, company, price, minimum_company_level)
}

/// The catalogue in presentation order: item, seller, price and required
/// level.
pub open spec fn offer_table() -> Seq<(ItemId, ContractCompany, u64, u8)> {
    seq![
        offer_spec(ItemId::LASER_BORE, ContractCompany::DeepTekIndustries, 1_500, 0),
        offer_spec(ItemId::RED_SHAFT_BORE, ContractCompany::AstraSurveyCorp, 6_000, 3),
        offer_spec(ItemId::COMPOSITE_ASSEMBLER, ContractCompany::DeepTekIndustries, 900, 0),
        offer_spec(ItemId::TURRET, ContractCompany::VanguardDefence, 1_200, 0),
        offer_spec(ItemId::AMMO_TURRET, ContractCompany::VanguardDefence, 1_600, 1),
        offer_spec(ItemId::DIRECTIONAL_SENTRY, ContractCompany::VanguardDefence, 2_000, 2),
        offer_spec(ItemId::ORBITAL_EXPORT_LAUNCHER, ContractCompany::AstraSurveyCorp, 1_000, 0),
        offer_spec(ItemId::SOLAR_ARRAY, ContractCompany::DeepTekIndustries, 400, 0),
        offer_spec(ItemId::BATTERY, ContractCompany::DeepTekIndustries, 600, 1),
        offer_spec(ItemId::CARGO_LIFT, ContractCompany::AstraSurveyCorp, 1_400, 1),
        offer_spec(ItemId::LIFT_STATION, ContractCompany::AstraSurveyCorp, 500, 1),
        offer_spec(ItemId::LASER_DRILL, ContractCompany::DeepTekIndustries, 2_500, 2),
        offer_spec(ItemId::SUBSURFACE_SURVEYOR, ContractCompany::AstraSurveyCorp, 1_800, 2),
        offer_spec(ItemId::DOOR, ContractCompany::DeepTekIndustries, 150, 0),
        offer_spec(ItemId::BED, ContractCompany::DeepTekIndustries, 250, 0),
    ]
}

pub open spec fn offer_matches(offer: MachineOffer, entry: (ItemId, ContractCompany, u64, u8)) -> bool {
    offer.item == entry.0 && offer.company == entry.1 && offer.price == entry.2 && offer.minimum_company_level
        == entry.3
}

fn offer(
    item: ItemId,
    company: ContractCompany,
    price: u64,
    minimum_company_level: u8,
    description: &'static str,
) -> (offer: MachineOffer)
    ensures
        offer_matches(offer, offer_spec(item, company, price, minimum_company_level)),
        offer.description == description,
{
    MachineOffer { item, company, price, minimum_company_level, description }
}

/// The machines for sale, in catalogue order.
#[allow(non_snake_case)]
pub fn MACHINE_OFFERS() -> (offers: Vec<MachineOffer>)
    ensures
        offers@.len() == offer_table().len(),
        forall|i: int| 0 <= i < offers@.len() ==> offer_matches(#[trigger] offers@[i], offer_table()[i]),
{
    let offers = vec![
        offer(ItemId::LASER_BORE, ContractCompany::DeepTekIndustries, 1_500, 0, "Powered drill that mines the ground beneath it."),
        offer(ItemId::RED_SHAFT_BORE, ContractCompany::AstraSurveyCorp, 6_000, 3, "Wide bore that cuts a deep shaft through hard strata."),
        offer(ItemId::COMPOSITE_ASSEMBLER, ContractCompany::DeepTekIndustries, 900, 0, "Presses dirt and stone into composite and smelts iron."),
        offer(ItemId::TURRET, ContractCompany::VanguardDefence, 1_200, 0, "Powered laser turret for base defence."),
        offer(ItemId::AMMO_TURRET, ContractCompany::VanguardDefence, 1_600, 1, "Ballistic turret that fires crafted rounds."),
        offer(ItemId::DIRECTIONAL_SENTRY, ContractCompany::VanguardDefence, 2_000, 2, "Structural sentry that guards one lane."),
        offer(ItemId::ORBITAL_EXPORT_LAUNCHER, ContractCompany::AstraSurveyCorp, 1_000, 0, "Sends stored stacks to orbit for money."),
        offer(ItemId::SOLAR_ARRAY, ContractCompany::DeepTekIndustries, 400, 0, "Generates power in daylight under open sky."),
        offer(ItemId::BATTERY, ContractCompany::DeepTekIndustries, 600, 1, "Stores surplus power for the night."),
        offer(ItemId::CARGO_LIFT, ContractCompany::AstraSurveyCorp, 1_400, 1, "Powered lift that carries cargo along a cable."),
        offer(ItemId::LIFT_STATION, ContractCompany::AstraSurveyCorp, 500, 1, "Stop where a cargo lift loads and unloads."),
        offer(ItemId::LASER_DRILL, ContractCompany::DeepTekIndustries, 2_500, 2, "Handheld drill with a longer reach."),
        offer(ItemId::SUBSURFACE_SURVEYOR, ContractCompany::AstraSurveyCorp, 1_800, 2, "Reveals ore deposits below the surface."),
        offer(ItemId::DOOR, ContractCompany::DeepTekIndustries, 150, 0, "A door that closes a room."),
        offer(ItemId::BED, ContractCompany::DeepTekIndustries, 250, 0, "A bed for specialist housing."),
    ];
    offers
}

/// The catalogue index of the first offer of an item, if any.
pub open spec fn offer_index(item: ItemId) -> Option<int> {
    if exists|i: int| 0 <= i < offer_table().len() && #[trigger] offer_table()[i].0 == item {
        Some(choose|i: int| 0 <= i < offer_table().len() && #[trigger] offer_table()[i].0 == item)
    } else {
        None
    }
}

/// The catalogue offer of an item.
pub fn machine_offer(item: ItemId) -> (found: Option<MachineOffer>)
    ensures
        match found {
            Some(offer) => offer_index(item) is Some && offer_matches(offer, offer_table()[offer_index(item)->0]),
            None => offer_index(item) is None,
        },
{
    let offers = MACHINE_OFFERS();
    let mut index: usize = 0;
    while index < offers.len()
        invariant
            index <= offers@.len(),
            offers@.len() == offer_table().len(),
            forall|i: int| 0 <= i < offers@.len() ==> offer_matches(#[trigger] offers@[i], offer_table()[i]),
            forall|i: int| 0 <= i < index ==> #[trigger] offer_table()[i].0 != item,
        decreases offers@.len() - index,
    {
        assert(offer_matches(offers@[index as int], offer_table()[index as int]));
        if offers[index].item == item {
            proof {
                let c = choose|i: int| 0 <= i < offer_table().len() && #[trigger] offer_table()[i].0 == item;
                lemma_catalogue_items_distinct(c, index as int);
            }
            return Some(offers[index]);
        }
        index = index + 1;
    }
    None
}

/// No item appears twice in the catalogue.
pub proof fn lemma_catalogue_items_distinct(i: int, j: int)
    requires
        0 <= i < offer_table().len(),
        0 <= j < offer_table().len(),
        offer_table()[i].0 == offer_table()[j].0,
    ensures
        i == j,
{
}

/// Why a purchase is refused.
#[derive(Clone, Copy, Debug, PartialEq, Eq, Structural)]
pub enum PurchaseError {
    ItemNotOffered,
    InsufficientFunds,
    CorporationLevelRequired,
    QueueFull,
}

/// Why a batch cannot be scheduled.
#[derive(Clone, Copy, Debug, PartialEq, Eq, Structural)]
pub enum ScheduleDeliveryError {
    InvalidDelay,
    QueueFull,
}

/// A delivered crate holding one item.
#[derive(Clone, Copy, Debug, PartialEq, Eq, Structural)]
pub struct DeliveryCrate {
    item: ItemId,
}

impl DeliveryCrate {
    pub closed spec fn spec_item(self) -> ItemId {
        self.item
    }

    pub fn new(item: ItemId) -> (delivery: Self)
        ensures
            delivery.spec_item() == item,
    {
        DeliveryCrate { item }
    }

    pub fn item(self) -> (item: ItemId)
        ensures
            item == self.spec_item(),
    {
        self.item
    }
}

/// One paid item on its way, with its arrival time on the procurement clock.
#[derive(Clone, Copy, Debug, PartialEq, Eq, Structural)]
pub struct PendingDelivery {
    pub item: ItemId,
    pub arrives_at_nanos: u64,
}

/// Whether deliveries are in arrival order.
pub open spec fn arrival_ordered(pending: Seq<PendingDelivery>) -> bool {
    forall|i: int, j: int|
        0 <= i < j < pending.len() ==> #[trigger] pending[i].arrives_at_nanos <= #[trigger] pending[j].arrives_at_nanos
}

/// Where a new delivery goes: after every delivery arriving no later.
pub open spec fn insert_position(pending: Seq<PendingDelivery>, arrives_at: u64) -> int
    decreases pending.len(),
{
    if pending.len() == 0 || pending[0].arrives_at_nanos > arrives_at {
        0
    } else {
        1 + insert_position(pending.drop_first(), arrives_at)
    }
}

/// The queue after adding one delivery at its arrival position.
pub open spec fn enqueued(pending: Seq<PendingDelivery>, item: ItemId, arrives_at: u64) -> Seq<PendingDelivery> {
    pending.insert(insert_position(pending, arrives_at), PendingDelivery { item, arrives_at_nanos: arrives_at })
}

/// The queue after adding several deliveries with one delay, in order.
pub open spec fn enqueued_all(pending: Seq<PendingDelivery>, items: Seq<ItemId>, arrives_at: u64) -> Seq<
    PendingDelivery,
>
    decreases items.len(),
{
    if items.len() == 0 {
        pending
    } else {
        enqueued_all(enqueued(pending, items[0], arrives_at), items.drop_first(), arrives_at)
    }
}

pub open spec fn saturating_sum(a: u64, b: u64) -> u64 {
    if a + b > u64::MAX {
        u64::MAX
    } else {
        (a + b) as u64
    }
}

/// A queue as it is saved: each item with its arrival time.
pub open spec fn saved_pending(pending: Seq<PendingDelivery>) -> Seq<(ItemId, u64)> {
    pending.map_values(|delivery: PendingDelivery| (delivery.item, delivery.arrives_at_nanos))
}

/// A saved queue back as deliveries.
pub open spec fn restored_pending(saved: Seq<(ItemId, u64)>) -> Seq<PendingDelivery> {
    saved.map_values(|entry: (ItemId, u64)| PendingDelivery { item: entry.0, arrives_at_nanos: entry.1 })
}

/// Whether a saved queue can be restored on a clock: nothing overdue, not
/// too long, and in arrival order.
pub open spec fn saved_queue_accepted(elapsed_nanos: u64, saved: Seq<(ItemId, u64)>) -> bool {
    &&& forall|i: int| 0 <= i < saved.len() ==> #[trigger] saved[i].1 >= elapsed_nanos
    &&& saved.len() <= MAX_PENDING_DELIVERIES
    &&& forall|i: int| 0 <= i < saved.len() - 1 ==> #[trigger] saved[i].1 <= saved[i + 1].1
}

/// The procurement clock and its arrival-ordered delivery queue.
#[derive(Clone, Debug, Default, PartialEq, Eq)]
pub struct DeliverySystem {
    elapsed_nanos: u64,
    pending: Vec<PendingDelivery>,
    drop_sequence: u32,
}

impl DeliverySystem {
    pub closed spec fn spec_elapsed(&self) -> u64 {
        self.elapsed_nanos
    }

    pub closed spec fn spec_pending(&self) -> Seq<PendingDelivery> {
        self.pending@
    }

    pub closed spec fn spec_drop_sequence(&self) -> u32 {
        self.drop_sequence
    }

    /// Deliveries are in arrival order, none is overdue on the clock, and
    /// the queue stays within its limit.
    pub open spec fn wf(&self) -> bool {
        &&& arrival_ordered(self.spec_pending())
        &&& forall|i: int|
            0 <= i < self.spec_pending().len() ==> #[trigger] self.spec_pending()[i].arrives_at_nanos
                >= self.spec_elapsed()
        &&& self.spec_pending().len() <= MAX_PENDING_DELIVERIES
    }

    /// An idle clock with nothing on the way.
    pub fn new() -> (system: Self)
        ensures
            system.wf(),
            system.spec_elapsed() == 0,
            system.spec_pending().len() == 0,
            system.spec_drop_sequence() == 0,
    {
        DeliverySystem { elapsed_nanos: 0, pending: Vec::new(), drop_sequence: 0 }
    }

    fn enqueue(&mut self, item: ItemId, delay_nanos: u64)
        requires
            old(self).wf(),
            old(self).spec_pending().len() < MAX_PENDING_DELIVERIES,
        ensures
            final(self).wf(),
            final(self).spec_pending() == enqueued(
                old(self).spec_pending(),
                item,
                saturating_sum(old(self).spec_elapsed(), delay_nanos),
            ),
            final(self).spec_elapsed() == old(self).spec_elapsed(),
            final(self).spec_drop_sequence() == old(self).spec_drop_sequence(),
    {
        let arrives_at = self.elapsed_nanos.saturating_add(delay_nanos);
        let mut index: usize = 0;
        assert(self.pending@.skip(0) =~= self.pending@);
        while index < self.pending.len() && self.pending[index].arrives_at_nanos <= arrives_at
            invariant
                index <= self.pending@.len(),
                self.pending@ == old(self).pending@,
                insert_position(self.pending@, arrives_at) == index + insert_position(
                    self.pending@.skip(index as int),
                    arrives_at,
                ),
            decreases self.pending@.len() - index,
        {
            proof {
                assert(self.pending@.skip(index as int).drop_first() =~= self.pending@.skip(index + 1));
            }
            index = index + 1;
        }
        proof {
            assert(insert_position(self.pending@.skip(index as int), arrives_at) == 0);
        }
        let ghost previous = self.pending@;
        self.pending.insert(index, PendingDelivery { item, arrives_at_nanos: arrives_at });
        proof {
            assert forall|i: int, j: int| 0 <= i < j < self.pending@.len() implies #[trigger] self.pending@[i].arrives_at_nanos
                <= #[trigger] self.pending@[j].arrives_at_nanos by {
                lemma_insert_position_bounds(previous, arrives_at);
                if i < index && j > index {
                    assert(self.pending@[i] == previous[i]);
                    assert(self.pending@[j] == previous[j - 1]);
                } else if i < index && j == index {
                    assert(self.pending@[i] == previous[i]);
                } else if i == index {
                    assert(self.pending@[j] == previous[j - 1]);
                } else if j < index {
                } else {
                    assert(self.pending@[i] == previous[i - 1]);
                    assert(self.pending@[j] == previous[j - 1]);
                }
            }
        }
    }

    /// Buys one catalogue machine: it must be offered, the queue must have
    /// room, the level must be reached and the wallet must cover the price.
    /// A refused purchase charges nothing and queues nothing.
    pub fn purchase(&mut self, item: ItemId, wallet: &mut Wallet, progress: CorporationProgress) -> (result: Result<
        (),
        PurchaseError,
    >)
        requires
            old(self).wf(),
        ensures
            final(self).wf(),
            final(self).spec_elapsed() == old(self).spec_elapsed(),
            final(self).spec_drop_sequence() == old(self).spec_drop_sequence(),
            offer_index(item) is None ==> result == Err::<(), PurchaseError>(PurchaseError::ItemNotOffered),
            offer_index(item) matches Some(i) ==> {
                let entry = offer_table()[i];
                let unlocked = level_for(progress.spec_experience(entry.1)) >= entry.3;
                &&& old(self).spec_pending().len() >= MAX_PENDING_DELIVERIES ==> result == Err::<(), PurchaseError>(
                    PurchaseError::QueueFull,
                )
                &&& old(self).spec_pending().len() < MAX_PENDING_DELIVERIES && !unlocked ==> result == Err::<
                    (),
                    PurchaseError,
                >(PurchaseError::CorporationLevelRequired)
                &&& old(self).spec_pending().len() < MAX_PENDING_DELIVERIES && unlocked && old(wallet).spec_money()
                    < entry.2 ==> result == Err::<(), PurchaseError>(PurchaseError::InsufficientFunds)
                &&& old(self).spec_pending().len() < MAX_PENDING_DELIVERIES && unlocked && old(wallet).spec_money()
                    >= entry.2 ==> result == Ok::<(), PurchaseError>(())
                &&& result is Ok ==> final(wallet).spec_money() == old(wallet).spec_money() - entry.2
            },
            result is Err ==> final(wallet).spec_money() == old(wallet).spec_money() && final(self).spec_pending()
                == old(self).spec_pending(),
            result is Ok ==> final(self).spec_pending() == enqueued(
                old(self).spec_pending(),
                item,
                saturating_sum(old(self).spec_elapsed(), DELIVERY_DELAY_NANOS),
            ),
    {
        let offer = match machine_offer(item) {
            Some(offer) => offer,
            None => return Err(PurchaseError::ItemNotOffered),
        };
        if self.pending.len() >= MAX_PENDING_DELIVERIES {
            return Err(PurchaseError::QueueFull);
        }
        if !offer.is_unlocked(progress) {
            return Err(PurchaseError::CorporationLevelRequired);
        }
        if !wallet.withdraw(offer.price) {
            return Err(PurchaseError::InsufficientFunds);
        }
        self.enqueue(item, DELIVERY_DELAY_NANOS);
        Ok(())
    }

    /// Queues every item with one delay, or none when they do not all fit.
    pub fn schedule_batch(&mut self, items: &[ItemId], delay_nanos: u64) -> (result: Result<(), ScheduleDeliveryError>)
        requires
            old(self).wf(),
        ensures
            final(self).wf(),
            final(self).spec_elapsed() == old(self).spec_elapsed(),
            final(self).spec_drop_sequence() == old(self).spec_drop_sequence(),
            result is Ok == (old(self).spec_pending().len() + items@.len() <= MAX_PENDING_DELIVERIES),
            result is Err ==> result == Err::<(), ScheduleDeliveryError>(ScheduleDeliveryError::QueueFull)
                && final(self).spec_pending() == old(self).spec_pending(),
            result is Ok ==> final(self).spec_pending() == enqueued_all(
                old(self).spec_pending(),
                items@,
                saturating_sum(old(self).spec_elapsed(), delay_nanos),
            ),
    {
        if items.len() > MAX_PENDING_DELIVERIES - self.pending.len() {
            return Err(ScheduleDeliveryError::QueueFull);
        }
        let ghost arrives_at = saturating_sum(self.spec_elapsed(), delay_nanos);
        let mut index: usize = 0;
        proof {
            assert(items@.skip(0) =~= items@);
        }
        while index < items.len()
            invariant
                index <= items@.len(),
                self.wf(),
                self.spec_elapsed() == old(self).spec_elapsed(),
                self.spec_drop_sequence() == old(self).spec_drop_sequence(),
                arrives_at == saturating_sum(self.spec_elapsed(), delay_nanos),
                self.spec_pending().len() == old(self).spec_pending().len() + index,
                old(self).spec_pending().len() + items@.len() <= MAX_PENDING_DELIVERIES,
                enqueued_all(self.spec_pending(), items@.skip(index as int), arrives_at) == enqueued_all(
                    old(self).spec_pending(),
                    items@,
                    arrives_at,
                ),
            decreases items@.len() - index,
        {
            proof {
                assert(items@.skip(index as int).drop_first() =~= items@.skip(index + 1));
                lemma_insert_position_bounds(self.spec_pending(), arrives_at);
            }
            self.enqueue(items[index], delay_nanos);
            index = index + 1;
        }
        proof {
            assert(items@.skip(index as int) =~= Seq::<ItemId>::empty());
        }
        Ok(())
    }

    pub fn pending_count(&self) -> (count: usize)
        ensures
            count == self.spec_pending().len(),
    {
        self.pending.len()
    }

    /// The items on their way, in arrival order.
    pub fn pending_items(&self) -> (items: Vec<ItemId>)
        ensures
            items@ == self.spec_pending().map_values(|delivery: PendingDelivery| delivery.item),
    {
        let mut items: Vec<ItemId> = Vec::new();
        let mut index: usize = 0;
        while index < self.pending.len()
            invariant
                index <= self.pending@.len(),
                items@ == self.pending@.take(index as int).map_values(|delivery: PendingDelivery| delivery.item),
            decreases self.pending@.len() - index,
        {
            items.push(self.pending[index].item);
            proof {
                assert(self.pending@.take(index + 1).map_values(|delivery: PendingDelivery| delivery.item)
                    =~= self.pending@.take(index as int).map_values(|delivery: PendingDelivery| delivery.item).push(
                    self.pending@[index as int].item,
                ));
            }
            index = index + 1;
        }
        proof {
            assert(self.pending@.take(index as int) =~= self.pending@);
        }
        items
    }

    /// Time until the next arrival, zero when it is due; none when the queue
    /// is empty.
    pub fn nanos_until_next(&self) -> (remaining: Option<u64>)
        ensures
            remaining == (if self.spec_pending().len() == 0 {
                None
            } else if self.spec_pending()[0].arrives_at_nanos > self.spec_elapsed() {
                Some((self.spec_pending()[0].arrives_at_nanos - self.spec_elapsed()) as u64)
            } else {
                Some(0u64)
            }),
    {
        if self.pending.len() == 0 {
            return None;
        }
        let next = self.pending[0].arrives_at_nanos;
        if next > self.elapsed_nanos {
            Some(next - self.elapsed_nanos)
        } else {
            Some(0)
        }
    }

    /// The clock, the drop sequence and each pending item with its arrival.
    pub fn saved_state(&self) -> (state: (u64, u32, Vec<(ItemId, u64)>))
        ensures
            state.0 == self.spec_elapsed(),
            state.1 == self.spec_drop_sequence(),
            state.2@ == saved_pending(self.spec_pending()),
    {
        let mut pending: Vec<(ItemId, u64)> = Vec::new();
        let mut index: usize = 0;
        while index < self.pending.len()
            invariant
                index <= self.pending@.len(),
                pending@.len() == index,
                forall|i: int|
                    0 <= i < index ==> #[trigger] pending@[i] == (self.pending@[i].item, self.pending@[i].arrives_at_nanos),
            decreases self.pending@.len() - index,
        {
            pending.push((self.pending[index].item, self.pending[index].arrives_at_nanos));
            index = index + 1;
        }
        (self.elapsed_nanos, self.drop_sequence, pending)
    }

    /// Restores a saved queue. None when an arrival lies before the clock,
    /// the queue is too long, or arrivals are out of order.
    pub fn from_saved(elapsed_nanos: u64, drop_sequence: u32, pending: Vec<(ItemId, u64)>) -> (system: Option<Self>)
        ensures
            system is Some == saved_queue_accepted(elapsed_nanos, pending@),
            system matches Some(s) ==> {
                &&& s.wf()
                &&& s.spec_elapsed() == elapsed_nanos
                &&& s.spec_drop_sequence() == drop_sequence
                &&& s.spec_pending() == restored_pending(pending@)
            },
    {
        let mut deliveries: Vec<PendingDelivery> = Vec::new();
        let mut index: usize = 0;
        while index < pending.len()
            invariant
                index <= pending@.len(),
                deliveries@.len() == index,
                forall|i: int| 0 <= i < index ==> #[trigger] pending@[i].1 >= elapsed_nanos,
                forall|i: int|
                    0 <= i < index ==> #[trigger] deliveries@[i] == (PendingDelivery {
                        item: pending@[i].0,
                        arrives_at_nanos: pending@[i].1,
                    }),
            decreases pending@.len() - index,
        {
            let (item, arrives_at) = pending[index];
            if arrives_at < elapsed_nanos {
                return None;
            }
            deliveries.push(PendingDelivery { item, arrives_at_nanos: arrives_at });
            index = index + 1;
        }
        if deliveries.len() > MAX_PENDING_DELIVERIES {
            return None;
        }
        let mut index: usize = 1;
        while index < deliveries.len()
            invariant
                1 <= index,
                deliveries@.len() == pending@.len(),
                forall|i: int|
                    0 <= i < deliveries@.len() ==> #[trigger] deliveries@[i] == (PendingDelivery {
                        item: pending@[i].0,
                        arrives_at_nanos: pending@[i].1,
                    }),
                forall|i: int| 0 <= i < index - 1 && i < pending@.len() - 1 ==> #[trigger] pending@[i].1 <= pending@[i + 1].1,
            decreases deliveries@.len() - index,
        {
            if deliveries[index - 1].arrives_at_nanos > deliveries[index].arrives_at_nanos {
                assert(!(pending@[index - 1].1 <= pending@[index as int].1));
                return None;
            }
            index = index + 1;
        }
        let system = DeliverySystem { elapsed_nanos, pending: deliveries, drop_sequence };
        proof {
            assert forall|i: int, j: int| 0 <= i < j < system.pending@.len() implies #[trigger] system.pending@[i].arrives_at_nanos
                <= #[trigger] system.pending@[j].arrives_at_nanos by {
                lemma_chain_ordered(pending@, i, j);
            }
        }
        Some(system)
    }

    /// Advances the clock and removes every delivery that is now due, in
    /// arrival order, each with its drop sequence number.
    pub fn take_due(&mut self, elapsed_nanos: u64) -> (due: Vec<(ItemId, u32)>)
        requires
            old(self).wf(),
        ensures
            final(self).wf(),
            final(self).spec_elapsed() == saturating_sum(old(self).spec_elapsed(), elapsed_nanos),
            due@.len() <= old(self).spec_pending().len(),
            final(self).spec_pending() == old(self).spec_pending().skip(due@.len() as int),
            forall|i: int|
                0 <= i < due@.len() ==> #[trigger] due@[i].0 == old(self).spec_pending()[i].item
                    && old(self).spec_pending()[i].arrives_at_nanos <= final(self).spec_elapsed(),
            due@.len() < old(self).spec_pending().len() ==> old(self).spec_pending()[due@.len() as int].arrives_at_nanos
                > final(self).spec_elapsed(),
    {
        self.elapsed_nanos = self.elapsed_nanos.saturating_add(elapsed_nanos);
        let mut count: usize = 0;
        while count < self.pending.len() && self.pending[count].arrives_at_nanos <= self.elapsed_nanos
            invariant
                count <= self.pending@.len(),
                self.pending@ == old(self).pending@,
                self.elapsed_nanos == saturating_sum(old(self).elapsed_nanos, elapsed_nanos),
                forall|i: int| 0 <= i < count ==> #[trigger] self.pending@[i].arrives_at_nanos <= self.elapsed_nanos,
            decreases self.pending@.len() - count,
        {
            count = count + 1;
        }
        let mut due: Vec<(ItemId, u32)> = Vec::new();
        let mut index: usize = 0;
        while index < count
            invariant
                index <= count,
                count <= self.pending@.len(),
                self.pending@ == old(self).pending@,
                self.elapsed_nanos == saturating_sum(old(self).elapsed_nanos, elapsed_nanos),
                forall|i: int| 0 <= i < count ==> #[trigger] self.pending@[i].arrives_at_nanos <= self.elapsed_nanos,
                count < self.pending@.len() ==> self.pending@[count as int].arrives_at_nanos > self.elapsed_nanos,
                due@.len() == index,
                forall|i: int| 0 <= i < index ==> #[trigger] due@[i].0 == self.pending@[i].item,
            decreases count - index,
        {
            due.push((self.pending[index].item, self.drop_sequence));
            self.drop_sequence = self.drop_sequence.wrapping_add(1);
            index = index + 1;
        }
        let rest = self.pending.split_off(count);
        self.pending = rest;
        proof {
            assert forall|i: int, j: int| 0 <= i < j < self.pending@.len() implies #[trigger] self.pending@[i].arrives_at_nanos
                <= #[trigger] self.pending@[j].arrives_at_nanos by {
                assert(self.pending@[i] == old(self).pending@[i + count]);
                assert(self.pending@[j] == old(self).pending@[j + count]);
            }
            assert(self.pending@ =~= old(self).pending@.skip(count as int));
        }
        due
    }
}

proof fn lemma_chain_ordered(pending: Seq<(ItemId, u64)>, i: int, j: int)
    requires
        0 <= i < j < pending.len(),
        forall|k: int| 0 <= k < pending.len() - 1 ==> #[trigger] pending[k].1 <= pending[k + 1].1,
    ensures
        pending[i].1 <= pending[j].1,
    decreases j - i,
{
    assert(pending[j - 1].1 <= pending[j].1);
    if i < j - 1 {
        lemma_chain_ordered(pending, i, j - 1);
    }
}

/// A new delivery lands after the ones arriving no later and before the
/// later ones.
pub proof fn lemma_insert_position_bounds(pending: Seq<PendingDelivery>, arrives_at: u64)
    requires
        arrival_ordered(pending),
    ensures
        0 <= insert_position(pending, arrives_at) <= pending.len(),
        forall|i: int| 0 <= i < insert_position(pending, arrives_at) ==> #[trigger] pending[i].arrives_at_nanos <= arrives_at,
        forall|i: int|
            insert_position(pending, arrives_at) <= i < pending.len() ==> #[trigger] pending[i].arrives_at_nanos
                > arrives_at,
    decreases pending.len(),
{
    if pending.len() > 0 && pending[0].arrives_at_nanos <= arrives_at {
        let rest = pending.drop_first();
        lemma_insert_position_bounds(rest, arrives_at);
        assert forall|i: int| 0 <= i < insert_position(pending, arrives_at) implies #[trigger] pending[i].arrives_at_nanos
            <= arrives_at by {
            if i > 0 {
                assert(pending[i] == rest[i - 1]);
            }
        }
        assert forall|i: int| insert_position(pending, arrives_at) <= i < pending.len() implies #[trigger] pending[i].arrives_at_nanos
            > arrives_at by {
            assert(pending[i] == rest[i - 1]);
        }
    }
}

/// Saving and restoring gives the same procurement state back: a saved
/// queue is always accepted and restores to the queue that was saved.
pub proof fn law_saved_deliveries_restore(system: DeliverySystem)
    requires
        system.wf(),
    ensures
        saved_queue_accepted(system.spec_elapsed(), saved_pending(system.spec_pending())),
        restored_pending(saved_pending(system.spec_pending())) == system.spec_pending(),
{
    let pending = system.spec_pending();
    let saved = saved_pending(pending);
    assert forall|i: int| 0 <= i < saved.len() - 1 implies #[trigger] saved[i].1 <= saved[i + 1].1 by {
        assert(pending[i].arrives_at_nanos <= pending[i + 1].arrives_at_nanos);
    }
    assert(restored_pending(saved) =~= pending);
}

} // verus!
