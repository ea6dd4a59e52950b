use vstd::prelude::*;
use crate::inventory::slots_wf;
use crate::items::{ItemDefinition, ItemId, ItemRegistry, ItemStack, lookup};
use crate::machine_processing::contains_object;
use crate::terrain::{FurnitureObject, ObjectId};
use crate::world::{World, WorldObject, index_of, lemma_index_of, lemma_sky_clear_same, sky_access, unique_ids};

verus! {

broadcast use crate::items::group_item_stack;

/// How often a launcher fires by default, in nanoseconds.
pub const DEFAULT_ORBITAL_EXPORT_INTERVAL_NANOS: u64 = 4_000_000_000;

/// One complete stack shipped from an orbital export launcher, with the
/// money it earns.
#[derive(Clone, Copy, Debug, PartialEq, Eq, Structural)]
pub struct ExportShipment {
    pub launcher: ObjectId,
    pub stack: ItemStack,
    pub unit_value: u64,
    pub proceeds: u64,
}

/// The first filled slot of a store, if any.
pub open spec fn first_filled(slots: Seq<Option<ItemStack>>) -> Option<int>
    decreases slots.len(),
{
    if slots.len() == 0 {
        None
    } else if slots[0] is Some {
        Some(0)
    } else {
        match first_filled(slots.drop_first()) {
            Some(i) => Some(i + 1),
            None => None,
        }
    }
}

pub proof fn lemma_first_filled(slots: Seq<Option<ItemStack>>)
    ensures
        first_filled(slots) matches Some(i) ==> 0 <= i < slots.len() && slots[i] is Some && forall|j: int|
            0 <= j < i ==> #[trigger] slots[j] is None,
        first_filled(slots) is None ==> forall|j: int| 0 <= j < slots.len() ==> #[trigger] slots[j] is None,
    decreases slots.len(),
{
    if slots.len() > 0 {
        lemma_first_filled(slots.drop_first());
        if slots[0] is None {
            assert forall|j: int| 1 <= j < slots.len() implies #[trigger] slots[j] == slots.drop_first()[j - 1] by {}
        }
    }
}

/// The money one unit of an item earns when shipped; nothing for items
/// without a definition.
pub open spec fn export_value_of(definitions: Seq<ItemDefinition>, item: ItemId) -> u64 {
    match lookup(definitions, item) {
        Some(definition) => definition.export_value,
        None => 0,
    }
}

pub open spec fn saturating_add_u64(a: u64, b: u64) -> u64 {
    if a + b > u64::MAX {
        u64::MAX
    } else {
        (a + b) as u64
    }
}

pub open spec fn saturating_mul_u64(a: u64, b: u64) -> u64 {
    if a * b > u64::MAX {
        u64::MAX
    } else {
        (a * b) as u64
    }
}

/// The next launch time recorded for a launcher, if any.
pub open spec fn launch_at(schedule: Seq<(ObjectId, u64)>, id: ObjectId) -> Option<u64> {
    if exists|i: int| 0 <= i < schedule.len() && #[trigger] schedule[i].0 == id {
        Some(schedule[choose|i: int| 0 <= i < schedule.len() && #[trigger] schedule[i].0 == id].1)
    } else {
        None
    }
}

pub open spec fn distinct_launchers(schedule: Seq<(ObjectId, u64)>) -> bool {
    forall|i: int, j: int|
        0 <= i < schedule.len() && 0 <= j < schedule.len() && #[trigger] schedule[i].0 == #[trigger] schedule[j].0
            ==> i == j
}

/// A switched-on orbital export launcher.
pub open spec fn running_launcher(object: WorldObject) -> bool {
    object.object_type == FurnitureObject::ORBITAL_EXPORT_LAUNCHER && object.active
}

/// When a launcher fires next, as the update finds it: its recorded time,
/// or one interval from now for a launcher seen for the first time.
pub open spec fn launch_before(schedule: Seq<(ObjectId, u64)>, id: ObjectId, clock: u64, interval: u64) -> u64 {
    match launch_at(schedule, id) {
        Some(time) => time,
        None => saturating_add_u64(clock, interval),
    }
}

pub open spec fn launch_due(schedule: Seq<(ObjectId, u64)>, id: ObjectId, clock: u64, interval: u64) -> bool {
    clock >= launch_before(schedule, id, clock, interval)
}

/// When a launcher fires next after the update: one interval from now if
/// it was due, otherwise unchanged.
pub open spec fn launch_after(schedule: Seq<(ObjectId, u64)>, id: ObjectId, clock: u64, interval: u64) -> u64 {
    if launch_due(schedule, id, clock, interval) {
        saturating_add_u64(clock, interval)
    } else {
        launch_before(schedule, id, clock, interval)
    }
}

/// Whether the object at an index ships a stack: a running launcher that is
/// due, powered, under open sky and holding something.
pub open spec fn ships(
    world: World,
    schedule: Seq<(ObjectId, u64)>,
    powered: Seq<ObjectId>,
    clock: u64,
    interval: u64,
    index: int,
) -> bool {
    let object = world.spec_objects()[index];
    &&& running_launcher(object)
    &&& launch_due(schedule, object.id, clock, interval)
    &&& powered.contains(object.id)
    &&& sky_access(world, object)
    &&& world.spec_containers()[index] matches Some(slots) && first_filled(slots) is Some
}

/// The shipment of the launcher at an index: its first stack and what it
/// earns.
pub open spec fn shipment_at(world: World, definitions: Seq<ItemDefinition>, index: int) -> ExportShipment {
    let slots = world.spec_containers()[index]->0;
    let stack = slots[first_filled(slots)->0]->0;
    let value = export_value_of(definitions, stack.spec_item());
    ExportShipment {
        launcher: world.spec_objects()[index].id,
        stack,
        unit_value: value,
        proceeds: saturating_mul_u64(value, stack.spec_quantity() as u64),
    }
}

/// The shipments of the first `count` objects, in placement order.
pub open spec fn shipments_upto(
    world: World,
    definitions: Seq<ItemDefinition>,
    schedule: Seq<(ObjectId, u64)>,
    powered: Seq<ObjectId>,
    clock: u64,
    interval: u64,
    count: nat,
) -> Seq<ExportShipment>
    decreases count,
{
    if count == 0 {
        Seq::empty()
    } else {
        let earlier = shipments_upto(world, definitions, schedule, powered, clock, interval, (count - 1) as nat);
        if ships(world, schedule, powered, clock, interval, count - 1) {
            earlier.push(shipment_at(world, definitions, count - 1))
        } else {
            earlier
        }
    }
}

/// The store at an index after the update: the shipped stack's slot is
/// emptied.
pub open spec fn store_after(
    world: World,
    schedule: Seq<(ObjectId, u64)>,
    powered: Seq<ObjectId>,
    clock: u64,
    interval: u64,
    index: int,
) -> Option<Seq<Option<ItemStack>>> {
    if ships(world, schedule, powered, clock, interval, index) {
        let slots = world.spec_containers()[index]->0;
        Some(slots.update(first_filled(slots)->0, None))
    } else {
        world.spec_containers()[index]
    }
}

/// The launch clock and each running launcher's next launch time.
#[derive(Clone, Debug)]
pub struct OrbitalExportSystem {
    interval_nanos: u64,
    clock_nanos: u64,
    next_launch: Vec<(ObjectId, u64)>,
}

impl OrbitalExportSystem {
    pub closed spec fn spec_interval(&self) -> u64 {
        self.interval_nanos
    }

    pub closed spec fn spec_clock(&self) -> u64 {
        self.clock_nanos
    }

    pub closed spec fn spec_schedule(&self) -> Seq<(ObjectId, u64)> {
        self.next_launch@
    }

    pub open spec fn wf(&self) -> bool {
        self.spec_interval() > 0 && distinct_launchers(self.spec_schedule())
    }

    /// A system firing every `interval_nanos`, with its clock at zero and no
    /// launcher seen yet.
    pub fn new(interval_nanos: u64) -> (system: Self)
        requires
            interval_nanos > 0,
        ensures
            system.wf(),
            system.spec_interval() == interval_nanos,
            system.spec_clock() == 0,
            system.spec_schedule().len() == 0,
    {
        OrbitalExportSystem { interval_nanos, clock_nanos: 0, next_launch: Vec::new() }
    }

    pub fn interval(&self) -> (interval: u64)
        ensures
            interval == self.spec_interval(),
    {
        self.interval_nanos
    }

    fn recorded_launch(&self, id: ObjectId) -> (time: Option<u64>)
        requires
            self.wf(),
        ensures
            time == launch_at(self.spec_schedule(), id),
    {
        let mut index: usize = 0;
        while index < self.next_launch.len()
            invariant
                index <= self.next_launch@.len(),
                distinct_launchers(self.next_launch@),
                forall|i: int| 0 <= i < index ==> (#[trigger] self.next_launch@[i]).0 != id,
            decreases self.next_launch@.len() - index,
        {
            if self.next_launch[index].0 == id {
                proof {
                    let schedule = self.next_launch@;
                    assert(schedule[index as int].0 == id);
                    let found = choose|i: int| 0 <= i < schedule.len() && #[trigger] schedule[i].0 == id;
                    assert(found == index);
                }
                return Some(self.next_launch[index].1);
            }
            index = index + 1;
        }
        None
    }

    /// Advances the launch clock and fires every running launcher that is
    /// due, in placement order. A due launcher is rescheduled one interval
    /// ahead; when it is powered and under open sky it ships its first
    /// stack, earning the item's export value per unit. Launchers seen for
    /// the first time wait one interval; launchers no longer running are
    /// forgotten.
    pub fn update(
        &mut self,
        world: &mut World,
        registry: &ItemRegistry,
        powered: &[ObjectId],
        elapsed_nanos: u64,
    ) -> (shipments: Vec<ExportShipment>)
        requires
            old(self).wf(),
            old(world).wf(),
        ensures
            final(self).wf(),
            final(world).wf(),
            final(self).spec_interval() == old(self).spec_interval(),
            final(self).spec_clock() == saturating_add_u64(old(self).spec_clock(), elapsed_nanos),
            forall|id: ObjectId|
                #[trigger] launch_at(final(self).spec_schedule(), id) == (if old(world).object_spec(id) matches Some(
                    object,
                ) && running_launcher(object) {
                    Some(
                        launch_after(
                            old(self).spec_schedule(),
                            id,
                            final(self).spec_clock(),
                            old(self).spec_interval(),
                        ),
                    )
                } else {
                    None
                }),
            shipments@ == shipments_upto(
                *old(world),
                registry@,
                old(self).spec_schedule(),
                powered@,
                final(self).spec_clock(),
                old(self).spec_interval(),
                old(world).spec_objects().len(),
            ),
            final(world).spec_containers().len() == old(world).spec_containers().len(),
            forall|i: int|
                0 <= i < old(world).spec_objects().len() ==> #[trigger] final(world).spec_containers()[i]
                    == store_after(
                    *old(world),
                    old(self).spec_schedule(),
                    powered@,
                    final(self).spec_clock(),
                    old(self).spec_interval(),
                    i,
                ),
            final(world).spec_objects() == old(world).spec_objects(),
            final(world).spec_width() == old(world).spec_width(),
            final(world).spec_height() == old(world).spec_height(),
            final(world).spec_foreground() == old(world).spec_foreground(),
            final(world).spec_charges() == old(world).spec_charges(),
            final(world).spec_specialists() == old(world).spec_specialists(),
            final(world).spec_background() == old(world).spec_background(),
            final(world).spec_seed() == old(world).spec_seed(),
            final(world).spec_next_object() == old(world).spec_next_object(),
            final(world).item_transport_revision_spec() == old(world).item_transport_revision_spec(),
    {
        let clock = self.clock_nanos.saturating_add(elapsed_nanos);
        let interval = self.interval_nanos;
        let ghost start = *world;
        let ghost schedule = self.next_launch@;
        let ghost objects = world.spec_objects();
        proof {
            world.lemma_wf();
        }
        let mut next_launch: Vec<(ObjectId, u64)> = Vec::new();
        let mut shipments: Vec<ExportShipment> = Vec::new();
        let count = world.object_count();
        let mut index: usize = 0;
        while index < count
            invariant
                world.item_transport_revision_spec() == old(world).item_transport_revision_spec(),
                self.wf(),
                self.next_launch@ == schedule,
                self.interval_nanos == interval,
                interval > 0,
                world.wf(),
                count == objects.len(),
                index <= count,
                objects == start.spec_objects(),
                unique_ids(objects),
                world.spec_objects() == objects,
                world.spec_width() == start.spec_width(),
                world.spec_height() == start.spec_height(),
                world.spec_foreground() == start.spec_foreground(),
                world.spec_charges() == start.spec_charges(),
                world.spec_specialists() == start.spec_specialists(),
                world.spec_background() == start.spec_background(),
                world.spec_seed() == start.spec_seed(),
                world.spec_next_object() == start.spec_next_object(),
                world.spec_containers().len() == objects.len(),
                start.spec_containers().len() == objects.len(),
                forall|i: int|
                    0 <= i < index ==> #[trigger] world.spec_containers()[i] == store_after(
                        start,
                        schedule,
                        powered@,
                        clock,
                        interval,
                        i,
                    ),
                forall|i: int| index <= i < objects.len() ==> #[trigger] world.spec_containers()[i] == start.spec_containers()[i],
                shipments@ == shipments_upto(start, registry@, schedule, powered@, clock, interval, index as nat),
                distinct_launchers(next_launch@),
                forall|id: ObjectId|
                    #[trigger] launch_at(next_launch@, id) == (if exists|i: int|
                        0 <= i < index && objects[i].id == id && running_launcher(objects[i]) {
                        Some(launch_after(schedule, id, clock, interval))
                    } else {
                        None
                    }),
                forall|k: int|
                    0 <= k < next_launch@.len() ==> exists|i: int|
                        0 <= i < index && #[trigger] objects[i].id == (#[trigger] next_launch@[k]).0,
            decreases count - index,
        {
            let object = world.objects_at_index(index);
            let ghost before_step = *world;
            let ghost launches_before = next_launch@;
            let ghost shipments_before = shipments@;
            proof {
                lemma_index_of(objects, object.id, index as int);
                lemma_first_filled_store(start, index as int);
                lemma_sky_clear_same(*world, start, object);
                assert(world.object_spec(object.id) == Some(object));
                assert(world.spec_containers()[index as int] == start.spec_containers()[index as int]);
            }
            if object.object_type == FurnitureObject::ORBITAL_EXPORT_LAUNCHER && object.active {
                let recorded = self.recorded_launch(object.id);
                let due_at = match recorded {
                    Some(time) => time,
                    None => clock.saturating_add(interval),
                };
                let due = clock >= due_at;
                let next = if due { clock.saturating_add(interval) } else { due_at };
                assert(due == launch_due(schedule, object.id, clock, interval));
                proof {
                    assert forall|k: int| 0 <= k < next_launch@.len() implies (#[trigger] next_launch@[k]).0 != object.id by {
                        let i = choose|i: int| 0 <= i < index && #[trigger] objects[i].id == next_launch@[k].0;
                        if next_launch@[k].0 == object.id {
                            assert(objects[i].id == objects[index as int].id);
                        }
                    }
                }
                next_launch.push((object.id, next));
                proof {
                    lemma_pushed_launch(launches_before, object.id, next);
                    assert forall|id: ObjectId| #[trigger] launch_at(next_launch@, id) == (if exists|i: int|
                        0 <= i < index + 1 && objects[i].id == id && running_launcher(objects[i]) {
                        Some(launch_after(schedule, id, clock, interval))
                    } else {
                        None
                    }) by {
                        if id != object.id {
                            if exists|i: int| 0 <= i < index + 1 && objects[i].id == id && running_launcher(objects[i]) {
                                let i = choose|i: int|
                                    0 <= i < index + 1 && objects[i].id == id && running_launcher(objects[i]);
                                assert(i != index);
                            }
                        }
                    }
                    assert forall|k: int| 0 <= k < next_launch@.len() implies exists|i: int|
                        0 <= i < index + 1 && #[trigger] objects[i].id == (#[trigger] next_launch@[k]).0 by {
                        if k == next_launch@.len() - 1 {
                            assert(objects[index as int].id == next_launch@[k].0);
                        } else {
                            assert(next_launch@[k] == launches_before[k]);
                        }
                    }
                }
                if due && contains_object(powered, object.id) && world.orbital_export_has_sky_access(object.id) {
                    let taken = world.take_container(index);
                    match taken {
                        Some(mut store) => {
                            let ghost original = store@;
                            let first = store.take_first_stack();
                            proof {
                                lemma_first_filled(original);
                                if first is Some {
                                    let k = choose|k: int|
                                        0 <= k < original.len() && original[k] == first && (forall|i: int|
                                            0 <= i < k ==> #[trigger] original[i] is None) && store@ == original.update(
                                            k,
                                            None,
                                        );
                                    if first_filled(original) is Some {
                                        let f = first_filled(original)->0;
                                        if f < k {
                                            assert(original[f] is None);
                                        } else if k < f {
                                            assert(original[k] is None);
                                        }
                                    }
                                }
                                assert(slots_wf(store@));
                            }
                            world.put_container(index, Some(store));
                            match first {
                                Some(stack) => {
                                    let unit_value: u64 = match registry.get(stack.item()) {
                                        Some(definition) => definition.export_value,
                                        None => 0,
                                    };
                                    let proceeds = match unit_value.checked_mul(stack.quantity() as u64) {
                                        Some(product) => product,
                                        None => u64::MAX,
                                    };
                                    shipments.push(ExportShipment { launcher: object.id, stack, unit_value, proceeds });
                                },
                                None => {},
                            }
                        },
                        None => {},
                    }
                }
            }
            proof {
                if ships(start, schedule, powered@, clock, interval, index as int) {
                    assert(shipments@ == shipments_before.push(shipment_at(start, registry@, index as int)));
                } else {
                    assert(shipments@ == shipments_before);
                }
                assert forall|i: int| 0 <= i < index + 1 implies #[trigger] world.spec_containers()[i] == store_after(
                    start,
                    schedule,
                    powered@,
                    clock,
                    interval,
                    i,
                ) by {
                    if i < index {
                        assert(before_step.spec_containers()[i] == store_after(start, schedule, powered@, clock, interval, i));
                    }
                }
                assert forall|i: int| index + 1 <= i < objects.len() implies #[trigger] world.spec_containers()[i]
                    == start.spec_containers()[i] by {
                    assert(before_step.spec_containers()[i] == start.spec_containers()[i]);
                }
            }
            index = index + 1;
        }
        self.clock_nanos = clock;
        self.next_launch = next_launch;
        proof {
            assert forall|id: ObjectId| #[trigger] launch_at(self.next_launch@, id) == (if start.object_spec(id) matches Some(
                object,
            ) && running_launcher(object) {
                Some(launch_after(schedule, id, clock, interval))
            } else {
                None
            }) by {
                if exists|i: int| 0 <= i < objects.len() && objects[i].id == id && running_launcher(objects[i]) {
                    let i = choose|i: int| 0 <= i < objects.len() && objects[i].id == id && running_launcher(objects[i]);
                    lemma_index_of(objects, id, i);
                }
                if start.object_spec(id) is Some {
                    let i = index_of(objects, id)->0;
                    assert(objects[i].id == id);
                }
            }
        }
        shipments
    }
}

/// The launch time recorded for a launcher after its entry is appended.
pub proof fn lemma_pushed_launch(schedule: Seq<(ObjectId, u64)>, id: ObjectId, time: u64)
    requires
        distinct_launchers(schedule),
        forall|k: int| 0 <= k < schedule.len() ==> (#[trigger] schedule[k]).0 != id,
    ensures
        distinct_launchers(schedule.push((id, time))),
        forall|other: ObjectId|
            #[trigger] launch_at(schedule.push((id, time)), other) == (if other == id {
                Some(time)
            } else {
                launch_at(schedule, other)
            }),
{
    let after = schedule.push((id, time));
    assert forall|i: int, j: int|
        0 <= i < after.len() && 0 <= j < after.len() && #[trigger] after[i].0 == #[trigger] after[j].0 implies i
        == j by {
        if i < schedule.len() && j < schedule.len() {
            assert(schedule[i].0 == schedule[j].0);
        } else if i < schedule.len() {
            assert(schedule[i].0 != id);
        } else if j < schedule.len() {
            assert(schedule[j].0 != id);
        }
    }
    assert forall|other: ObjectId| #[trigger] launch_at(after, other) == (if other == id {
        Some(time)
    } else {
        launch_at(schedule, other)
    }) by {
        if other == id {
            assert(after[schedule.len() as int].0 == id);
            let found = choose|i: int| 0 <= i < after.len() && #[trigger] after[i].0 == id;
            assert(found == schedule.len());
        } else {
            if exists|i: int| 0 <= i < schedule.len() && #[trigger] schedule[i].0 == other {
                let k = choose|i: int| 0 <= i < schedule.len() && #[trigger] schedule[i].0 == other;
                assert(after[k].0 == other);
            }
            if exists|i: int| 0 <= i < after.len() && #[trigger] after[i].0 == other {
                let k = choose|i: int| 0 <= i < after.len() && #[trigger] after[i].0 == other;
                assert(k < schedule.len());
                assert(schedule[k].0 == other);
            }
        }
    }
}

/// What the store of the object at an index holds decides whether it ships.
pub proof fn lemma_first_filled_store(world: World, index: int)
    requires
        0 <= index < world.spec_containers().len(),
    ensures
        world.spec_containers()[index] matches Some(slots) ==> (first_filled(slots) matches Some(i) ==> 0 <= i
            < slots.len() && slots[i] is Some),
{
    if world.spec_containers()[index] is Some {
        lemma_first_filled(world.spec_containers()[index]->0);
    }
}

} // verus!
