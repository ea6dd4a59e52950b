use vstd::prelude::*;
use crate::furniture::{
    footprint, footprint_spec, is_connector_spec, is_item_transport_connector, item_transport_role, starts_active,
    starts_active_spec, storage_slots, storage_slots_spec, transport_role_spec,
};
use crate::inventory::{ItemContainer, slots_wf, stack_wf};
use crate::items::ItemStack;
use crate::specialists::{SpecialistBonuses, SpecialistId, SpecialistRecord, base_totals, totals_for};
use crate::terrain::{FurnitureObject, ObjectId, TilePos};

verus! {

/// Widest supported world, in tiles.
pub const MAX_WORLD_WIDTH: u32 = 10_000;
/// Deepest supported world, in tiles.
pub const MAX_WORLD_HEIGHT: u32 = 16_000;
/// Most tiles a world may hold in one plane.
pub const MAX_WORLD_CELLS: u64 = 64_000_000;
/// The foreground tile value of open air.
pub const EMPTY_TILE: u16 = 0;

/// Most slots one object's store may have.
pub const MAX_STORE_SLOTS: usize = 4096;

/// A store's slots are well formed and few enough that a count of items
/// across them fits in `u32`.
pub open spec fn store_wf(slots: Seq<Option<ItemStack>>) -> bool {
    slots_wf(slots) && slots.len() <= MAX_STORE_SLOTS
}

/// One placed piece of furniture.
#[derive(Clone, Copy, Debug, PartialEq, Eq, Structural)]
pub struct WorldObject {
    pub id: ObjectId,
    pub object_type: FurnitureObject,
    pub anchor: TilePos,
    pub width: u8,
    pub height: u8,
    pub active: bool,
}

/// Whether an object's footprint includes a tile.
pub open spec fn covers(object: WorldObject, position: TilePos) -> bool {
    &&& object.anchor.x <= position.x < object.anchor.x + object.width
    &&& object.anchor.y <= position.y < object.anchor.y + object.height
}

/// Whether a footprint lies inside a world of the given size.
pub open spec fn in_bounds(object: WorldObject, width: u32, height: u32) -> bool {
    &&& object.width >= 1
    &&& object.height >= 1
    &&& object.anchor.x + object.width <= width
    &&& object.anchor.y + object.height <= height
}

/// Whether two footprints share a tile.
pub open spec fn footprints_overlap(a: WorldObject, b: WorldObject) -> bool {
    &&& a.anchor.x < b.anchor.x + b.width
    &&& b.anchor.x < a.anchor.x + a.width
    &&& a.anchor.y < b.anchor.y + b.height
    &&& b.anchor.y < a.anchor.y + a.height
}

/// Objects are listed in the order of their identifiers, which is the
/// order in which they were placed.
pub open spec fn ascending_ids(objects: Seq<WorldObject>) -> bool {
    forall|i: int, j: int| 0 <= i < j < objects.len() ==> #[trigger] objects[i].id.spec_raw() < #[trigger] objects[j].id.spec_raw()
}

/// No two placed objects share a tile.
pub open spec fn apart(objects: Seq<WorldObject>) -> bool {
    forall|i: int, j: int|
        0 <= i < objects.len() && 0 <= j < objects.len() && i != j ==> !#[trigger] footprints_overlap(
            objects[i],
            #[trigger] objects[j],
        )
}

/// Objects that cover one tile overlap.
pub proof fn lemma_covering_overlap(a: WorldObject, b: WorldObject, position: TilePos)
    requires
        covers(a, position),
        covers(b, position),
    ensures
        footprints_overlap(a, b),
{
}

/// Among objects kept apart, at most one covers a tile.
pub proof fn lemma_single_cover(objects: Seq<WorldObject>, position: TilePos, i: int, j: int)
    requires
        apart(objects),
        0 <= i < objects.len(),
        0 <= j < objects.len(),
        covers(objects[i], position),
        covers(objects[j], position),
    ensures
        i == j,
{
    if i != j {
        lemma_covering_overlap(objects[i], objects[j], position);
        assert(!footprints_overlap(objects[i], objects[j]));
    }
}

impl WorldObject {
    pub fn id(&self) -> (id: ObjectId)
        ensures
            id == self.id,
    {
        self.id
    }

    pub fn object_type(&self) -> (object_type: FurnitureObject)
        ensures
            object_type == self.object_type,
    {
        self.object_type
    }

    pub fn anchor(&self) -> (anchor: TilePos)
        ensures
            anchor == self.anchor,
    {
        self.anchor
    }

    /// Width and height in tiles.
    pub fn size(&self) -> (size: [u8; 2])
        ensures
            size[0] == self.width,
            size[1] == self.height,
    {
        [self.width, self.height]
    }

    pub fn is_active(&self) -> (active: bool)
        ensures
            active == self.active,
    {
        self.active
    }
}

/// Why a world cannot be created.
#[derive(Clone, Copy, Debug, PartialEq, Eq, Structural)]
pub enum WorldError {
    ZeroSize,
    TooLarge,
}

/// Why furniture cannot be placed.
#[derive(Clone, Copy, Debug, PartialEq, Eq, Structural)]
pub enum PlacementError {
    OutOfBounds,
    Occupied,
    TooManyObjects,
}

/// The index of the object with an identifier, if any.
pub open spec fn index_of(objects: Seq<WorldObject>, id: ObjectId) -> Option<int> {
    if exists|i: int| 0 <= i < objects.len() && #[trigger] objects[i].id == id {
        Some(choose|i: int| 0 <= i < objects.len() && #[trigger] objects[i].id == id)
    } else {
        None
    }
}

pub open spec fn unique_ids(objects: Seq<WorldObject>) -> bool {
    forall|i: int, j: int|
        0 <= i < objects.len() && 0 <= j < objects.len() && #[trigger] objects[i].id == #[trigger] objects[j].id
            ==> i == j
}

pub proof fn lemma_index_of(objects: Seq<WorldObject>, id: ObjectId, index: int)
    requires
        unique_ids(objects),
        0 <= index < objects.len(),
        objects[index].id == id,
    ensures
        index_of(objects, id) == Some(index),
{
}

/// Removing an object just placed undoes the placement: the object is found
/// at the end of the list, and removing it there restores the objects that
/// were placed before, as well as any list kept in step with them.
pub proof fn law_remove_undoes_place<A>(objects: Seq<WorldObject>, placed: WorldObject, kept: Seq<A>, added: A)
    requires
        unique_ids(objects),
        index_of(objects, placed.id) is None,
        kept.len() == objects.len(),
    ensures
        index_of(objects.push(placed), placed.id) == Some(objects.len() as int),
        objects.push(placed).remove(objects.len() as int) == objects,
        kept.push(added).remove(objects.len() as int) == kept,
{
    let after = objects.push(placed);
    assert forall|i: int, j: int|
        0 <= i < after.len() && 0 <= j < after.len() && #[trigger] after[i].id == #[trigger] after[j].id implies i
        == j by {
        if i < objects.len() && j < objects.len() {
            assert(objects[i].id == objects[j].id);
        } else if i < objects.len() {
            assert(objects[i].id == placed.id);
        } else if j < objects.len() {
            assert(objects[j].id == placed.id);
        }
    }
    lemma_index_of(after, placed.id, objects.len() as int);
    assert(after.remove(objects.len() as int) =~= objects);
    assert(kept.push(added).remove(objects.len() as int) =~= kept);
}

/// The objects of one kind, in placement order.
pub open spec fn of_type(objects: Seq<WorldObject>, object_type: FurnitureObject) -> Seq<WorldObject> {
    objects.filter(|o: WorldObject| o.object_type == object_type)
}

/// Each object of a kind is a placed object of that kind.
pub proof fn lemma_of_type_member(objects: Seq<WorldObject>, object_type: FurnitureObject, k: int)
    requires
        0 <= k < of_type(objects, object_type).len(),
    ensures
        of_type(objects, object_type)[k].object_type == object_type,
        exists|i: int| 0 <= i < objects.len() && #[trigger] objects[i] == of_type(objects, object_type)[k],
{
    let pred = |o: WorldObject| o.object_type == object_type;
    objects.filter_lemma(pred);
    assert(objects.filter(pred).contains(objects.filter(pred)[k]));
    objects.lemma_filter_contains_rev(pred, objects.filter(pred)[k]);
}

/// Objects of one kind, taken from objects with unique identifiers, are
/// never listed twice.
pub proof fn lemma_of_type_distinct(objects: Seq<WorldObject>, object_type: FurnitureObject)
    requires
        unique_ids(objects),
    ensures
        of_type(objects, object_type).no_duplicates(),
    decreases objects.len(),
{
    reveal(Seq::filter);
    if objects.len() > 0 {
        let rest = objects.drop_last();
        let pred = |o: WorldObject| o.object_type == object_type;
        assert forall|i: int, j: int|
            0 <= i < rest.len() && 0 <= j < rest.len() && #[trigger] rest[i].id == #[trigger] rest[j].id implies i == j by {
            assert(objects[i].id == objects[j].id);
        }
        lemma_of_type_distinct(rest, object_type);
        let kept = rest.filter(pred);
        assert(of_type(rest, object_type) == kept);
        if pred(objects.last()) {
            if kept.contains(objects.last()) {
                rest.lemma_filter_contains_rev(pred, objects.last());
                let i = choose|i: int| 0 <= i < rest.len() && rest[i] == objects.last();
                assert(objects[i].id == objects[objects.len() - 1].id);
            }
            assert(of_type(objects, object_type) == kept.push(objects.last()));
        } else {
            assert(of_type(objects, object_type) == kept);
        }
    }
}

/// The object a tile belongs to: the earliest placed object covering it.
pub open spec fn object_at_spec(objects: Seq<WorldObject>, position: TilePos) -> Option<WorldObject> {
    if exists|i: int| 0 <= i < objects.len() && #[trigger] covers(objects[i], position) {
        let i = choose|i: int|
            0 <= i < objects.len() && #[trigger] covers(objects[i], position) && forall|j: int|
                0 <= j < i ==> !#[trigger] covers(objects[j], position);
        Some(objects[i])
    } else {
        None
    }
}

/// A fixed-size tile world: a foreground plane, placed furniture with its
/// storage and charge, and the recruited specialists.
pub struct World {
    width: u32,
    height: u32,
    seed: u64,
    foreground: Vec<u16>,
    background: Vec<u16>,
    objects: Vec<WorldObject>,
    containers: Vec<Option<ItemContainer>>,
    battery_charges: Vec<Option<u32>>,
    specialists: Vec<SpecialistRecord>,
    next_object: u64,
    transport_revision: u64,
}

pub open spec fn container_view(container: Option<ItemContainer>) -> Option<Seq<Option<ItemStack>>> {
    match container {
        Some(c) => Some(c@),
        None => None,
    }
}

impl World {
    pub closed spec fn spec_width(&self) -> u32 {
        self.width
    }

    pub closed spec fn spec_height(&self) -> u32 {
        self.height
    }

    /// The foreground plane in row-major order.
    pub closed spec fn spec_foreground(&self) -> Seq<u16> {
        self.foreground@
    }

    /// The background plane in row-major order.
    pub closed spec fn spec_background(&self) -> Seq<u16> {
        self.background@
    }

    pub open spec fn back_tile(&self, x: u32, y: u32) -> u16 {
        self.spec_background()[y * self.spec_width() + x]
    }

    /// Placed objects in placement order.
    pub closed spec fn spec_objects(&self) -> Seq<WorldObject> {
        self.objects@
    }

    /// The stored items of each object, aligned with `spec_objects`.
    pub closed spec fn spec_containers(&self) -> Seq<Option<Seq<Option<ItemStack>>>> {
        self.containers@.map_values(|c: Option<ItemContainer>| container_view(c))
    }

    /// The stored charge of each object, aligned with `spec_objects`.
    pub closed spec fn spec_charges(&self) -> Seq<Option<u32>> {
        self.battery_charges@
    }

    pub closed spec fn spec_specialists(&self) -> Seq<SpecialistRecord> {
        self.specialists@
    }

    pub closed spec fn spec_next_object(&self) -> u64 {
        self.next_object
    }

    /// The identifier the next placed object receives.
    pub fn next_object_id(&self) -> (next: u64)
        ensures
            next == self.spec_next_object(),
    {
        self.next_object
    }

    pub open spec fn tile(&self, x: u32, y: u32) -> u16 {
        self.spec_foreground()[y * self.spec_width() + x]
    }

    pub open spec fn object_spec(&self, id: ObjectId) -> Option<WorldObject> {
        match index_of(self.spec_objects(), id) {
            Some(i) => Some(self.spec_objects()[i]),
            None => None,
        }
    }

    pub open spec fn container_spec(&self, id: ObjectId) -> Option<Seq<Option<ItemStack>>> {
        match index_of(self.spec_objects(), id) {
            Some(i) => self.spec_containers()[i],
            None => None,
        }
    }

    pub open spec fn charge_spec(&self, id: ObjectId) -> Option<u32> {
        match index_of(self.spec_objects(), id) {
            Some(i) => self.spec_charges()[i],
            None => None,
        }
    }

    pub closed spec fn wf(&self) -> bool {
        &&& 0 < self.width <= MAX_WORLD_WIDTH
        &&& 0 < self.height <= MAX_WORLD_HEIGHT
        &&& self.foreground@.len() == self.width * self.height
        &&& self.background@.len() == self.width * self.height
        &&& self.width * self.height <= MAX_WORLD_CELLS
        &&& self.containers@.len() == self.objects@.len()
        &&& self.battery_charges@.len() == self.objects@.len()
        &&& unique_ids(self.objects@)
        &&& unique_specialists(self.specialists@)
        &&& self.objects@.len() <= MAX_WORLD_CELLS
        &&& forall|i: int| 0 <= i < self.objects@.len() ==> #[trigger] in_bounds(self.objects@[i], self.width, self.height)
        &&& forall|i: int| 0 <= i < self.objects@.len() ==> #[trigger] self.objects@[i].id.spec_raw() < self.next_object
        &&& apart(self.objects@)
        &&& ascending_ids(self.objects@)
        &&& forall|i: int|
            0 <= i < self.containers@.len() ==> match #[trigger] self.containers@[i] {
                Some(c) => store_wf(c@),
                None => true,
            }
    }

    pub proof fn lemma_wf(&self)
        requires
            self.wf(),
        ensures
            0 < self.spec_width() <= MAX_WORLD_WIDTH,
            0 < self.spec_height() <= MAX_WORLD_HEIGHT,
            self.spec_foreground().len() == self.spec_width() * self.spec_height(),
            self.spec_width() * self.spec_height() <= MAX_WORLD_CELLS,
            self.spec_containers().len() == self.spec_objects().len(),
            self.spec_charges().len() == self.spec_objects().len(),
            unique_ids(self.spec_objects()),
            self.spec_objects().len() <= MAX_WORLD_CELLS,
            forall|i: int| 0 <= i < self.spec_objects().len() ==> #[trigger] in_bounds(self.spec_objects()[i], self.spec_width(), self.spec_height()),
            apart(self.spec_objects()),
            ascending_ids(self.spec_objects()),
            forall|i: int|
                0 <= i < self.spec_containers().len() ==> match #[trigger] self.spec_containers()[i] {
                    Some(c) => store_wf(c),
                    None => true,
                },
    {
        assert forall|i: int| 0 <= i < self.spec_containers().len() implies match #[trigger] self.spec_containers()[i] {
            Some(c) => store_wf(c),
            None => true,
        } by {
            assert(self.spec_containers()[i] == container_view(self.containers@[i]));
        }
    }

    /// An all-air world without objects or specialists.
    pub fn empty(width: u32, height: u32, seed: u64) -> (world: Result<World, WorldError>)
        ensures
            (width == 0 || height == 0) ==> world == Err::<World, WorldError>(WorldError::ZeroSize),
            (width > 0 && height > 0 && (width > MAX_WORLD_WIDTH || height > MAX_WORLD_HEIGHT
                || width * height > MAX_WORLD_CELLS)) ==> world == Err::<World, WorldError>(WorldError::TooLarge),
            world matches Ok(w) ==> {
                &&& w.wf()
                &&& w.spec_width() == width
                &&& w.spec_height() == height
                &&& w.spec_seed() == seed
                &&& forall|i: int| 0 <= i < w.spec_foreground().len() ==> #[trigger] w.spec_foreground()[i] == EMPTY_TILE
                &&& w.spec_objects().len() == 0
                &&& w.spec_specialists().len() == 0
            },
            world is Ok == (width > 0 && height > 0 && width <= MAX_WORLD_WIDTH && height <= MAX_WORLD_HEIGHT
                && width * height <= MAX_WORLD_CELLS),
    {
        if width == 0 || height == 0 {
            return Err(WorldError::ZeroSize);
        }
        if width > MAX_WORLD_WIDTH || height > MAX_WORLD_HEIGHT {
            return Err(WorldError::TooLarge);
        }
        assert(width as u64 * height as u64 <= 160_000_000) by (nonlinear_arith)
            requires
                width <= 10_000,
                height <= 16_000,
        ;
        let cells: u64 = width as u64 * height as u64;
        if cells > MAX_WORLD_CELLS {
            return Err(WorldError::TooLarge);
        }
        let foreground: Vec<u16> = vec![EMPTY_TILE; cells as usize];
        let background: Vec<u16> = vec![EMPTY_TILE; cells as usize];
        let world = World {
            width,
            height,
            seed,
            foreground,
            background,
            objects: Vec::new(),
            containers: Vec::new(),
            battery_charges: Vec::new(),
            specialists: Vec::new(),
            next_object: 1,
            transport_revision: 0,
        };
        Ok(world)
    }

    pub fn width(&self) -> (width: u32)
        ensures
            width == self.spec_width(),
    {
        self.width
    }

    pub fn height(&self) -> (height: u32)
        ensures
            height == self.spec_height(),
    {
        self.height
    }

    /// The seed the world was made with.
    pub closed spec fn spec_seed(&self) -> u64 {
        self.seed
    }

    pub fn seed(&self) -> (seed: u64)
        ensures
            seed == self.spec_seed(),
    {
        self.seed
    }

    pub closed spec fn item_transport_revision_spec(&self) -> u64 {
        self.transport_revision
    }

    /// The revision after transport furniture was placed or removed: one
    /// more, wrapping round at the largest `u64`.
    pub open spec fn next_revision(revision: u64) -> u64 {
        if revision == u64::MAX {
            0
        } else {
            (revision + 1) as u64
        }
    }

    /// The revision after an object of a kind was placed or removed: it
    /// moves on for connectors and machines with a transport role only.
    pub open spec fn revision_after(&self, object_type: FurnitureObject) -> u64 {
        if is_connector_spec(object_type) || transport_role_spec(object_type) is Some {
            World::next_revision(self.item_transport_revision_spec())
        } else {
            self.item_transport_revision_spec()
        }
    }

    /// A counter that changes whenever item transport furniture is placed or
    /// removed.
    pub fn item_transport_revision(&self) -> (revision: u64)
        ensures
            revision == self.item_transport_revision_spec(),
    {
        self.transport_revision
    }

    /// The foreground tile at an in-bounds position.
    pub fn foreground_tile(&self, x: u32, y: u32) -> (tile: u16)
        requires
            self.wf(),
            x < self.spec_width(),
            y < self.spec_height(),
        ensures
            tile == self.tile(x, y),
    {
        proof {
            lemma_cell_index(x as int, y as int, self.width as int, self.height as int);
            assert(y * self.width <= y * self.width + x);
        }
        self.foreground[y as usize * self.width as usize + x as usize]
    }

    /// The background tile at an in-bounds position.
    pub fn background_tile(&self, x: u32, y: u32) -> (tile: u16)
        requires
            self.wf(),
            x < self.spec_width(),
            y < self.spec_height(),
        ensures
            tile == self.back_tile(x, y),
    {
        proof {
            lemma_cell_index(x as int, y as int, self.width as int, self.height as int);
            assert(y * self.width <= y * self.width + x);
        }
        self.background[y as usize * self.width as usize + x as usize]
    }

    /// Replaces a background tile; false and unchanged when out of bounds.
    pub fn set_background_tile(&mut self, x: u32, y: u32, tile: u16) -> (set: bool)
        requires
            old(self).wf(),
        ensures
            final(self).wf(),
            set == (x < old(self).spec_width() && y < old(self).spec_height()),
            set ==> final(self).spec_background() == old(self).spec_background().update(
                y * old(self).spec_width() + x,
                tile,
            ),
            !set ==> final(self).spec_background() == old(self).spec_background(),
            final(self).spec_foreground() == old(self).spec_foreground(),
            final(self).spec_width() == old(self).spec_width(),
            final(self).spec_height() == old(self).spec_height(),
            final(self).spec_objects() == old(self).spec_objects(),
            final(self).spec_containers() == old(self).spec_containers(),
            final(self).spec_charges() == old(self).spec_charges(),
            final(self).spec_specialists() == old(self).spec_specialists(),
            final(self).spec_next_object() == old(self).spec_next_object(),
            final(self).item_transport_revision_spec() == old(self).item_transport_revision_spec(),
            final(self).spec_seed() == old(self).spec_seed(),
    {
        if x >= self.width || y >= self.height {
            return false;
        }
        proof {
            lemma_cell_index(x as int, y as int, self.width as int, self.height as int);
            assert(y * self.width <= y * self.width + x);
        }
        let index = y as usize * self.width as usize + x as usize;
        self.background.set(index, tile);
        true
    }

    /// Replaces a foreground tile; false and unchanged when out of bounds.
    pub fn set_foreground_tile(&mut self, x: u32, y: u32, tile: u16) -> (set: bool)
        requires
            old(self).wf(),
        ensures
            final(self).wf(),
            set == (x < old(self).spec_width() && y < old(self).spec_height()),
            set ==> final(self).spec_foreground() == old(self).spec_foreground().update(
                y * old(self).spec_width() + x,
                tile,
            ),
            !set ==> final(self).spec_foreground() == old(self).spec_foreground(),
            final(self).spec_width() == old(self).spec_width(),
            final(self).spec_height() == old(self).spec_height(),
            final(self).spec_objects() == old(self).spec_objects(),
            final(self).spec_containers() == old(self).spec_containers(),
            final(self).spec_charges() == old(self).spec_charges(),
            final(self).spec_specialists() == old(self).spec_specialists(),
            final(self).spec_next_object() == old(self).spec_next_object(),
            final(self).item_transport_revision_spec() == old(self).item_transport_revision_spec(),
            final(self).spec_seed() == old(self).spec_seed(),
            final(self).spec_background() == old(self).spec_background(),
    {
        if x >= self.width || y >= self.height {
            return false;
        }
        proof {
            lemma_cell_index(x as int, y as int, self.width as int, self.height as int);
            assert(y * self.width <= y * self.width + x);
        }
        let index = y as usize * self.width as usize + x as usize;
        self.foreground.set(index, tile);
        true
    }

    fn find_index(&self, id: ObjectId) -> (index: Option<usize>)
        requires
            self.wf(),
        ensures
            match index {
                Some(i) => i < self.spec_objects().len() && self.spec_objects()[i as int].id == id
                    && index_of(self.spec_objects(), id) == Some(i as int),
                None => index_of(self.spec_objects(), id) is None,
            },
    {
        let mut index: usize = 0;
        while index < self.objects.len()
            invariant
                index <= self.objects@.len(),
                unique_ids(self.objects@),
                forall|i: int| 0 <= i < index ==> #[trigger] self.objects@[i].id != id,
            decreases self.objects@.len() - index,
        {
            if self.objects[index].id == id {
                proof {
                    lemma_index_of(self.objects@, id, index as int);
                }
                return Some(index);
            }
            index = index + 1;
        }
        None
    }

    /// The placed object with an identifier.
    pub fn object(&self, id: ObjectId) -> (object: Option<WorldObject>)
        requires
            self.wf(),
        ensures
            object == self.object_spec(id),
    {
        match self.find_index(id) {
            Some(i) => Some(self.objects[i]),
            None => None,
        }
    }

    /// The object whose footprint includes a tile.
    pub fn object_at(&self, position: TilePos) -> (object: Option<WorldObject>)
        ensures
            object == object_at_spec(self.spec_objects(), position),
    {
        let mut index: usize = 0;
        while index < self.objects.len()
            invariant
                index <= self.objects@.len(),
                forall|j: int| 0 <= j < index ==> !#[trigger] covers(self.objects@[j], position),
            decreases self.objects@.len() - index,
        {
            let object = self.objects[index];
            if object.anchor.x <= position.x && (position.x as u64) < object.anchor.x as u64 + object.width as u64
                && object.anchor.y <= position.y && (position.y as u64) < object.anchor.y as u64
                + object.height as u64 {
                proof {
                    let i = index as int;
                    assert(covers(self.objects@[i], position));
                    let c = choose|k: int|
                        0 <= k < self.objects@.len() && #[trigger] covers(self.objects@[k], position) && forall|j: int|
                            0 <= j < k ==> !#[trigger] covers(self.objects@[j], position);
                    assert(c == i) by {
                        if c < i {
                        } else if c > i {
                            assert(!covers(self.objects@[i], position));
                        }
                    }
                }
                return Some(object);
            }
            index = index + 1;
        }
        None
    }

    /// The placed objects of one kind, in placement order.
    pub fn objects_of_type(&self, object_type: FurnitureObject) -> (objects: Vec<WorldObject>)
        ensures
            objects@ == of_type(self.spec_objects(), object_type),
    {
        let mut objects: Vec<WorldObject> = Vec::new();
        let mut index: usize = 0;
        while index < self.objects.len()
            invariant
                index <= self.objects@.len(),
                objects@ == of_type(self.objects@.take(index as int), object_type),
            decreases self.objects@.len() - index,
        {
            proof {
                reveal(Seq::filter);
                assert(self.objects@.take(index + 1).drop_last() =~= self.objects@.take(index as int));
            }
            if self.objects[index].object_type == object_type {
                objects.push(self.objects[index]);
            }
            index = index + 1;
        }
        assert(self.objects@.take(index as int) =~= self.objects@);
        objects
    }

    /// Places furniture with its anchor at the top-left of its footprint;
    /// stores get empty slots and batteries start uncharged.
    pub fn place_furniture(&mut self, object_type: FurnitureObject, anchor: TilePos) -> (placed: Result<
        ObjectId,
        PlacementError,
    >)
        requires
            old(self).wf(),
        ensures
            final(self).wf(),
            final(self).spec_width() == old(self).spec_width(),
            final(self).spec_height() == old(self).spec_height(),
            final(self).spec_foreground() == old(self).spec_foreground(),
            final(self).spec_specialists() == old(self).spec_specialists(),
            placed is Err ==> final(self).spec_objects() == old(self).spec_objects()
                && final(self).spec_containers() == old(self).spec_containers()
                && final(self).spec_charges() == old(self).spec_charges(),
            placed == Err::<ObjectId, PlacementError>(PlacementError::OutOfBounds) <==> anchor.x
                + footprint_spec(object_type).0 > old(self).spec_width() || anchor.y
                + footprint_spec(object_type).1 > old(self).spec_height(),
            placed == Err::<ObjectId, PlacementError>(PlacementError::TooManyObjects) <==> (anchor.x
                + footprint_spec(object_type).0 <= old(self).spec_width() && anchor.y + footprint_spec(object_type).1
                <= old(self).spec_height() && (old(self).spec_next_object() == u64::MAX || old(
                self,
            ).spec_objects().len() >= MAX_WORLD_CELLS)),
            (anchor.x + footprint_spec(object_type).0 <= old(self).spec_width() && anchor.y + footprint_spec(
                object_type,
            ).1 <= old(self).spec_height() && old(self).spec_next_object() < u64::MAX && old(self).spec_objects().len()
                < MAX_WORLD_CELLS && (forall|i: int|
                0 <= i < old(self).spec_objects().len() ==> !#[trigger] footprints_overlap(
                    old(self).spec_objects()[i],
                    WorldObject {
                        id: old(self).spec_objects()[i].id,
                        object_type,
                        anchor,
                        width: footprint_spec(object_type).0,
                        height: footprint_spec(object_type).1,
                        active: starts_active_spec(object_type),
                    },
                ))) ==> placed is Ok,
            placed == Err::<ObjectId, PlacementError>(PlacementError::Occupied) ==> exists|i: int|
                0 <= i < old(self).spec_objects().len() && #[trigger] footprints_overlap(
                    old(self).spec_objects()[i],
                    WorldObject {
                        id: old(self).spec_objects()[i].id,
                        object_type,
                        anchor,
                        width: footprint_spec(object_type).0,
                        height: footprint_spec(object_type).1,
                        active: starts_active_spec(object_type),
                    },
                ),
            placed matches Ok(id) ==> {
                let object = WorldObject {
                    id,
                    object_type,
                    anchor,
                    width: footprint_spec(object_type).0,
                    height: footprint_spec(object_type).1,
                    active: starts_active_spec(object_type),
                };
                &&& final(self).spec_objects() == old(self).spec_objects().push(object)
                &&& old(self).object_spec(id) is None
                &&& (forall|i: int|
                    0 <= i < old(self).spec_objects().len() ==> !#[trigger] footprints_overlap(
                        old(self).spec_objects()[i],
                        object,
                    ))
                &&& final(self).spec_containers() == old(self).spec_containers().push(
                    match storage_slots_spec(object_type) {
                        Some(n) => Some(Seq::new(n as nat, |k: int| None::<ItemStack>)),
                        None => None,
                    },
                )
                &&& final(self).spec_charges() == old(self).spec_charges().push(
                    if object_type == FurnitureObject::BATTERY { Some(0u32) } else { None },
                )
            },
            final(self).item_transport_revision_spec() == if placed is Ok {
                old(self).revision_after(object_type)
            } else {
                old(self).item_transport_revision_spec()
            },
            final(self).spec_seed() == old(self).spec_seed(),
            final(self).spec_background() == old(self).spec_background(),
            placed matches Ok(id) ==> id == ObjectId::spec_new(old(self).spec_next_object()),
    {
        let (width, height) = footprint(object_type);
        if anchor.x as u64 + width as u64 > self.width as u64 || anchor.y as u64 + height as u64
            > self.height as u64 {
            return Err(PlacementError::OutOfBounds);
        }
        if self.next_object == u64::MAX || self.objects.len() as u64 >= MAX_WORLD_CELLS {
            return Err(PlacementError::TooManyObjects);
        }
        let candidate = WorldObject {
            id: ObjectId::new(self.next_object),
            object_type,
            anchor,
            width,
            height,
            active: starts_active(object_type),
        };
        let mut index: usize = 0;
        while index < self.objects.len()
            invariant
                *self == *old(self),
                self.wf(),
                anchor.x + width <= self.width,
                anchor.y + height <= self.height,
                footprint_spec(object_type) == (width, height),
                index <= self.objects@.len(),
                candidate.width == width,
                candidate.height == height,
                candidate.anchor == anchor,
                self.next_object < u64::MAX,
                self.objects@.len() < MAX_WORLD_CELLS,
                forall|i: int| 0 <= i < index ==> !#[trigger] footprints_overlap(self.objects@[i], candidate),
            decreases self.objects@.len() - index,
        {
            let other = self.objects[index];
            if (other.anchor.x as u64) < anchor.x as u64 + width as u64 && (anchor.x as u64)
                < other.anchor.x as u64 + other.width as u64 && (other.anchor.y as u64) < anchor.y as u64
                + height as u64 && (anchor.y as u64) < other.anchor.y as u64 + other.height as u64 {
                proof {
                    let i = index as int;
                    assert(footprints_overlap(
                        old(self).spec_objects()[i],
                        WorldObject {
                            id: old(self).spec_objects()[i].id,
                            object_type,
                            anchor,
                            width: footprint_spec(object_type).0,
                            height: footprint_spec(object_type).1,
                            active: starts_active_spec(object_type),
                        },
                    ));
                }
                return Err(PlacementError::Occupied);
            }
            index = index + 1;
        }
        proof {
            assert forall|i: int| 0 <= i < self.objects@.len() implies #[trigger] self.objects@[i].id
                != candidate.id by {
            }
        }
        let container = match storage_slots(object_type) {
            Some(slots) => Some(ItemContainer::new(slots)),
            None => None,
        };
        let charge = if object_type == FurnitureObject::BATTERY { Some(0u32) } else { None };
        let ghost old_containers = self.containers@;
        self.objects.push(candidate);
        self.containers.push(container);
        self.battery_charges.push(charge);
        self.next_object = self.next_object + 1;
        if is_item_transport_connector(object_type) || item_transport_role(object_type).is_some() {
            self.transport_revision = self.transport_revision.wrapping_add(1);
        }
        proof {
            assert(self.spec_containers() =~= old(self).spec_containers().push(container_view(container)));
            assert(container_view(container) == match storage_slots_spec(object_type) {
                Some(n) => Some(Seq::new(n as nat, |k: int| None::<ItemStack>)),
                None => None,
            });
            assert forall|i: int| 0 <= i < self.containers@.len() implies match #[trigger] self.containers@[i] {
                Some(c) => store_wf(c@),
                None => true,
            } by {
                if i < old_containers.len() {
                    assert(self.containers@[i] == old_containers[i]);
                }
            }
            assert(index_of(old(self).objects@, candidate.id) is None);
            let before = old(self).objects@;
            assert forall|i: int, j: int|
                0 <= i < self.objects@.len() && 0 <= j < self.objects@.len() && i != j implies !#[trigger] footprints_overlap(
                self.objects@[i],
                #[trigger] self.objects@[j],
            ) by {
                if i < before.len() && j < before.len() {
                    assert(self.objects@[i] == before[i]);
                    assert(self.objects@[j] == before[j]);
                } else if i < before.len() {
                    assert(!footprints_overlap(before[i], candidate));
                } else {
                    assert(!footprints_overlap(before[j], candidate));
                }
            }
        }
        Ok(candidate.id)
    }

    /// Removes a placed object together with its store and charge.
    pub fn remove_object(&mut self, id: ObjectId) -> (removed: Option<WorldObject>)
        requires
            old(self).wf(),
        ensures
            final(self).wf(),
            removed == old(self).object_spec(id),
            match index_of(old(self).spec_objects(), id) {
                Some(i) => {
                    &&& final(self).spec_objects() == old(self).spec_objects().remove(i)
                    &&& final(self).spec_containers() == old(self).spec_containers().remove(i)
                    &&& final(self).spec_charges() == old(self).spec_charges().remove(i)
                },
                None => {
                    &&& final(self).spec_objects() == old(self).spec_objects()
                    &&& final(self).spec_containers() == old(self).spec_containers()
                    &&& final(self).spec_charges() == old(self).spec_charges()
                },
            },
            final(self).spec_width() == old(self).spec_width(),
            final(self).spec_height() == old(self).spec_height(),
            final(self).spec_foreground() == old(self).spec_foreground(),
            final(self).spec_specialists() == old(self).spec_specialists(),
            final(self).spec_next_object() == old(self).spec_next_object(),
            final(self).item_transport_revision_spec() == match removed {
                Some(object) => old(self).revision_after(object.object_type),
                None => old(self).item_transport_revision_spec(),
            },
            final(self).spec_seed() == old(self).spec_seed(),
            final(self).spec_background() == old(self).spec_background(),
    {
        let index = match self.find_index(id) {
            Some(i) => i,
            None => return None,
        };
        let object = self.objects.remove(index);
        self.containers.remove(index);
        self.battery_charges.remove(index);
        if is_item_transport_connector(object.object_type) || item_transport_role(object.object_type).is_some() {
            self.transport_revision = self.transport_revision.wrapping_add(1);
        }
        proof {
            let old_objects = old(self).objects@;
            assert forall|k: int| 0 <= k < self.objects@.len() implies #[trigger] self.objects@[k]
                == old_objects[if k < index { k } else { k + 1 }] by {
            }
            assert forall|a: int, b: int|
                0 <= a < self.objects@.len() && 0 <= b < self.objects@.len() && #[trigger] self.objects@[a].id
                    == #[trigger] self.objects@[b].id implies a == b by {
                let oa = if a < index { a } else { a + 1 };
                let ob = if b < index { b } else { b + 1 };
                assert(old_objects[oa].id == old_objects[ob].id);
            }
            assert forall|k: int| 0 <= k < self.objects@.len() implies #[trigger] in_bounds(self.objects@[k], self.width, self.height) by {
                let ok = if k < index { k } else { k + 1 };
                assert(in_bounds(old_objects[ok], self.width, self.height));
            }
            assert forall|k: int| 0 <= k < self.objects@.len() implies #[trigger] self.objects@[k].id.spec_raw() < self.next_object by {
                let ok = if k < index { k } else { k + 1 };
                assert(old_objects[ok].id.spec_raw() < self.next_object);
            }
            assert forall|k: int| 0 <= k < self.containers@.len() implies match #[trigger] self.containers@[k] {
                Some(c) => store_wf(c@),
                None => true,
            } by {
                let ok = if k < index { k } else { k + 1 };
                assert(self.containers@[k] == old(self).containers@[ok]);
            }
            assert(self.spec_containers() =~= old(self).spec_containers().remove(index as int));
        }
        Some(object)
    }

    /// Marks furniture active or idle; false when no such object exists.
    pub fn set_furniture_active(&mut self, id: ObjectId, active: bool) -> (found: bool)
        requires
            old(self).wf(),
        ensures
            final(self).wf(),
            found == (old(self).object_spec(id) is Some),
            found ==> final(self).spec_objects() == old(self).spec_objects().update(
                index_of(old(self).spec_objects(), id)->0,
                WorldObject { active, ..old(self).object_spec(id)->0 },
            ),
            !found ==> final(self).spec_objects() == old(self).spec_objects(),
            final(self).spec_width() == old(self).spec_width(),
            final(self).spec_height() == old(self).spec_height(),
            final(self).spec_foreground() == old(self).spec_foreground(),
            final(self).spec_containers() == old(self).spec_containers(),
            final(self).spec_charges() == old(self).spec_charges(),
            final(self).spec_specialists() == old(self).spec_specialists(),
            final(self).spec_next_object() == old(self).spec_next_object(),
            final(self).item_transport_revision_spec() == old(self).item_transport_revision_spec(),
            final(self).spec_seed() == old(self).spec_seed(),
            final(self).spec_background() == old(self).spec_background(),
    {
        match self.find_index(id) {
            Some(i) => {
                let object = self.objects[i];
                self.objects.set(i, WorldObject { active, ..object });
                proof {
                    assert forall|a: int, b: int|
                        0 <= a < self.objects@.len() && 0 <= b < self.objects@.len()
                            && #[trigger] self.objects@[a].id == #[trigger] self.objects@[b].id implies a == b by {
                        assert(self.objects@[a].id == old(self).objects@[a].id);
                        assert(self.objects@[b].id == old(self).objects@[b].id);
                    }
                    assert forall|k: int| 0 <= k < self.objects@.len() implies #[trigger] self.objects@[k].id.spec_raw()
                        < self.next_object by {
                        assert(self.objects@[k].id == old(self).objects@[k].id);
                    }
                    assert forall|k: int| 0 <= k < self.objects@.len() implies #[trigger] in_bounds(self.objects@[k], self.width, self.height) by {
                        assert(in_bounds(old(self).objects@[k], self.width, self.height));
                    }
                    assert forall|a: int, b: int|
                        0 <= a < self.objects@.len() && 0 <= b < self.objects@.len() && a != b implies !#[trigger] footprints_overlap(
                        self.objects@[a],
                        #[trigger] self.objects@[b],
                    ) by {
                        assert(!footprints_overlap(old(self).objects@[a], old(self).objects@[b]));
                    }
                }
                true
            },
            None => false,
        }
    }

    /// The stored items of an object.
    pub fn container(&self, id: ObjectId) -> (container: Option<&ItemContainer>)
        requires
            self.wf(),
        ensures
            match container {
                Some(c) => self.container_spec(id) == Some(c@) && c.wf() && store_wf(c@),
                None => self.container_spec(id) is None,
            },
    {
        match self.find_index(id) {
            Some(i) => {
                proof {
                    assert(self.spec_containers()[i as int] == container_view(self.containers@[i as int]));
                }
                match &self.containers[i] {
                    Some(c) => Some(c),
                    None => None,
                }
            },
            None => None,
        }
    }

    /// Takes an object's store out of the world, leaving none in its place.
    pub(crate) fn take_container(&mut self, index: usize) -> (container: Option<ItemContainer>)
        requires
            old(self).wf(),
            index < old(self).spec_objects().len(),
        ensures
            final(self).wf(),
            container_view(container) == old(self).spec_containers()[index as int],
            container matches Some(c) ==> c.wf() && store_wf(c@),
            final(self).spec_containers() == old(self).spec_containers().update(index as int, None),
            final(self).spec_objects() == old(self).spec_objects(),
            final(self).spec_width() == old(self).spec_width(),
            final(self).spec_height() == old(self).spec_height(),
            final(self).spec_foreground() == old(self).spec_foreground(),
            final(self).spec_charges() == old(self).spec_charges(),
            final(self).spec_specialists() == old(self).spec_specialists(),
            final(self).spec_next_object() == old(self).spec_next_object(),
            final(self).item_transport_revision_spec() == old(self).item_transport_revision_spec(),
            final(self).spec_seed() == old(self).spec_seed(),
            final(self).spec_background() == old(self).spec_background(),
    {
        let container = self.containers.remove(index);
        self.containers.insert(index, None);
        proof {
            assert(old(self).spec_containers()[index as int] == container_view(old(self).containers@[index as int]));
            assert(self.containers@ =~= old(self).containers@.update(index as int, None));
            assert(self.spec_containers() =~= old(self).spec_containers().update(index as int, None));
            assert forall|i: int| 0 <= i < self.containers@.len() implies match #[trigger] self.containers@[i] {
                Some(c) => store_wf(c@),
                None => true,
            } by {
                if i != index {
                    assert(self.containers@[i] == old(self).containers@[i]);
                }
            }
        }
        container
    }

    /// Puts a store back at an object's position.
    pub(crate) fn put_container(&mut self, index: usize, container: Option<ItemContainer>)
        requires
            old(self).wf(),
            index < old(self).spec_objects().len(),
            container matches Some(c) ==> store_wf(c@),
        ensures
            final(self).wf(),
            final(self).spec_containers() == old(self).spec_containers().update(
                index as int,
                container_view(container),
            ),
            final(self).spec_objects() == old(self).spec_objects(),
            final(self).spec_width() == old(self).spec_width(),
            final(self).spec_height() == old(self).spec_height(),
            final(self).spec_foreground() == old(self).spec_foreground(),
            final(self).spec_charges() == old(self).spec_charges(),
            final(self).spec_specialists() == old(self).spec_specialists(),
            final(self).spec_next_object() == old(self).spec_next_object(),
            final(self).item_transport_revision_spec() == old(self).item_transport_revision_spec(),
            final(self).spec_seed() == old(self).spec_seed(),
            final(self).spec_background() == old(self).spec_background(),
    {
        let ghost replaced = container;
        self.containers.set(index, container);
        proof {
            assert(self.spec_containers() =~= old(self).spec_containers().update(
                index as int,
                container_view(replaced),
            ));
            assert forall|i: int| 0 <= i < self.containers@.len() implies match #[trigger] self.containers@[i] {
                Some(c) => store_wf(c@),
                None => true,
            } by {
                if i != index {
                    assert(self.containers@[i] == old(self).containers@[i]);
                }
            }
        }
    }

    pub(crate) fn object_count(&self) -> (count: usize)
        ensures
            count == self.spec_objects().len(),
    {
        self.objects.len()
    }

    pub(crate) fn objects_at_index(&self, index: usize) -> (object: WorldObject)
        requires
            index < self.spec_objects().len(),
        ensures
            object == self.spec_objects()[index as int],
    {
        self.objects[index]
    }

    pub(crate) fn index_of_object(&self, id: ObjectId) -> (index: Option<usize>)
        requires
            self.wf(),
        ensures
            match index {
                Some(i) => i < self.spec_objects().len() && self.spec_objects()[i as int].id == id
                    && index_of(self.spec_objects(), id) == Some(i as int),
                None => index_of(self.spec_objects(), id) is None,
            },
    {
        self.find_index(id)
    }

    /// Replaces one slot of an object's store; false when the object has no
    /// store or no such slot.
    pub fn set_container_slot(&mut self, id: ObjectId, slot: usize, stack: Option<ItemStack>) -> (set: bool)
        requires
            old(self).wf(),
            stack_wf(stack),
        ensures
            final(self).wf(),
            set == (old(self).container_spec(id) matches Some(c) && slot < c.len()),
            set ==> final(self).spec_containers() == old(self).spec_containers().update(
                index_of(old(self).spec_objects(), id)->0,
                Some(old(self).container_spec(id)->0.update(slot as int, stack)),
            ),
            !set ==> final(self).spec_containers() == old(self).spec_containers(),
            final(self).spec_objects() == old(self).spec_objects(),
            final(self).spec_width() == old(self).spec_width(),
            final(self).spec_height() == old(self).spec_height(),
            final(self).spec_foreground() == old(self).spec_foreground(),
            final(self).spec_charges() == old(self).spec_charges(),
            final(self).spec_specialists() == old(self).spec_specialists(),
            final(self).spec_next_object() == old(self).spec_next_object(),
            final(self).item_transport_revision_spec() == old(self).item_transport_revision_spec(),
            final(self).spec_seed() == old(self).spec_seed(),
            final(self).spec_background() == old(self).spec_background(),
    {
        let index = match self.find_index(id) {
            Some(i) => i,
            None => return false,
        };
        let taken = self.take_container(index);
        match taken {
            Some(mut container) => {
                let set = container.set_slot(slot, stack);
                self.put_container(index, Some(container));
                proof {
                    if !set {
                        assert(self.spec_containers() =~= old(self).spec_containers());
                    }
                }
                set
            },
            None => {
                self.put_container(index, None);
                proof {
                    assert(self.spec_containers() =~= old(self).spec_containers());
                }
                false
            },
        }
    }

    /// The stored charge of a battery, in milli-units.
    pub fn battery_charge_milli(&self, id: ObjectId) -> (charge: Option<u32>)
        requires
            self.wf(),
        ensures
            charge == self.charge_spec(id),
    {
        match self.find_index(id) {
            Some(i) => self.battery_charges[i],
            None => None,
        }
    }

    /// Stores a battery's charge; false when the object holds no charge.
    pub fn set_battery_charge_milli(&mut self, id: ObjectId, charge: u32) -> (set: bool)
        requires
            old(self).wf(),
        ensures
            final(self).wf(),
            set == (old(self).charge_spec(id) is Some),
            set ==> final(self).spec_charges() == old(self).spec_charges().update(
                index_of(old(self).spec_objects(), id)->0,
                Some(charge),
            ),
            !set ==> final(self).spec_charges() == old(self).spec_charges(),
            final(self).spec_objects() == old(self).spec_objects(),
            final(self).spec_width() == old(self).spec_width(),
            final(self).spec_height() == old(self).spec_height(),
            final(self).spec_foreground() == old(self).spec_foreground(),
            final(self).spec_containers() == old(self).spec_containers(),
            final(self).spec_specialists() == old(self).spec_specialists(),
            final(self).spec_next_object() == old(self).spec_next_object(),
            final(self).item_transport_revision_spec() == old(self).item_transport_revision_spec(),
            final(self).spec_seed() == old(self).spec_seed(),
            final(self).spec_background() == old(self).spec_background(),
    {
        match self.find_index(id) {
            Some(i) => {
                if self.battery_charges[i].is_none() {
                    return false;
                }
                self.battery_charges.set(i, Some(charge));
                true
            },
            None => false,
        }
    }
}

/// The row-major cell of an in-bounds tile lies inside the plane.
pub proof fn lemma_cell_index(x: int, y: int, width: int, height: int)
    requires
        0 <= x < width,
        0 <= y < height,
    ensures
        0 <= y * width + x < width * height,
{
    assert(y * width <= (height - 1) * width) by (nonlinear_arith)
        requires
            0 <= y <= height - 1,
            width > 0,
    ;
    assert((height - 1) * width + width == width * height) by (nonlinear_arith);
    assert(0 <= y * width) by (nonlinear_arith)
        requires
            0 <= y,
            width > 0,
    ;
}

/// Distinct in-bounds positions occupy distinct cells.
pub proof fn lemma_cell_index_distinct(x: int, y: int, other_x: int, other_y: int, width: int)
    requires
        0 <= x < width,
        0 <= other_x < width,
        0 <= y,
        0 <= other_y,
        y * width + x == other_y * width + other_x,
    ensures
        x == other_x,
        y == other_y,
{
    if y < other_y {
        assert(y * width + width <= other_y * width) by (nonlinear_arith)
            requires
                y < other_y,
                width > 0,
        ;
    } else if other_y < y {
        assert(other_y * width + width <= y * width) by (nonlinear_arith)
            requires
                other_y < y,
                width > 0,
        ;
    }
}

/// A foreground write reads back: after a tile is set at a position, that
/// position holds the new tile and every other position keeps its tile.
pub proof fn law_foreground_write_reads_back(
    before: World,
    after: World,
    x: u32,
    y: u32,
    tile: u16,
    other_x: u32,
    other_y: u32,
)
    requires
        before.wf(),
        x < before.spec_width(),
        y < before.spec_height(),
        other_x < before.spec_width(),
        other_y < before.spec_height(),
        after.spec_width() == before.spec_width(),
        after.spec_foreground() == before.spec_foreground().update(y * before.spec_width() + x, tile),
    ensures
        after.tile(x, y) == tile,
        other_x != x || other_y != y ==> after.tile(other_x, other_y) == before.tile(other_x, other_y),
{
    let width = before.spec_width() as int;
    lemma_cell_index(x as int, y as int, width, before.spec_height() as int);
    lemma_cell_index(other_x as int, other_y as int, width, before.spec_height() as int);
    if other_y * width + other_x == y * width + x {
        lemma_cell_index_distinct(x as int, y as int, other_x as int, other_y as int, width);
    }
}

/// Whether a procurement terminal with this identifier is placed.
pub open spec fn terminal_exists(objects: Seq<WorldObject>, id: ObjectId) -> bool {
    exists|i: int|
        0 <= i < objects.len() && #[trigger] objects[i].id == id && objects[i].object_type
            == FurnitureObject::PROCUREMENT_TERMINAL
}

/// Whether a record's home terminal is among the objects.
pub open spec fn keeps_terminal(objects: Seq<WorldObject>) -> spec_fn(SpecialistRecord) -> bool {
    |r: SpecialistRecord| terminal_exists(objects, r.spec_home_terminal())
}

/// The first record of a specialist, if recruited.
pub open spec fn specialist_of(records: Seq<SpecialistRecord>, id: SpecialistId) -> Option<SpecialistRecord> {
    if exists|i: int| 0 <= i < records.len() && #[trigger] records[i].spec_id() == id {
        Some(records[choose|i: int| 0 <= i < records.len() && #[trigger] records[i].spec_id() == id])
    } else {
        None
    }
}

/// Why a specialist cannot be recruited.
#[derive(Clone, Copy, Debug, PartialEq, Eq, Structural)]
pub enum RecruitSpecialistError {
    UnknownSpecialist,
    AlreadyRecruited,
    InvalidTerminal,
    UnsuitableHouse,
}

impl World {
    pub fn specialists(&self) -> (records: &[SpecialistRecord])
        ensures
            records@ == self.spec_specialists(),
    {
        self.specialists.as_slice()
    }

    /// The record of a recruited specialist.
    pub fn specialist(&self, id: SpecialistId) -> (record: Option<&SpecialistRecord>)
        requires
            self.wf(),
        ensures
            match record {
                Some(r) => specialist_of(self.spec_specialists(), id) == Some(*r),
                None => specialist_of(self.spec_specialists(), id) is None,
            },
    {
        let mut index: usize = 0;
        while index < self.specialists.len()
            invariant
                index <= self.specialists@.len(),
                unique_specialists(self.specialists@),
                forall|i: int| 0 <= i < index ==> #[trigger] self.specialists@[i].spec_id() != id,
            decreases self.specialists@.len() - index,
        {
            if self.specialists[index].id() == id {
                proof {
                    assert(self.specialists@[index as int].spec_id() == id);
                    let c = choose|i: int| 0 <= i < self.specialists@.len() && #[trigger] self.specialists@[i].spec_id() == id;
                    assert(c == index);
                }
                return Some(&self.specialists[index]);
            }
            index = index + 1;
        }
        None
    }

    /// The combined bonuses of every recruited specialist, in recruitment
    /// order.
    pub fn specialist_bonuses(&self) -> (bonuses: SpecialistBonuses)
        ensures
            bonuses@ == totals_for(base_totals(), self.spec_specialists().map_values(|r: SpecialistRecord| r.spec_id())),
    {
        let mut ids: Vec<SpecialistId> = Vec::new();
        let mut index: usize = 0;
        while index < self.specialists.len()
            invariant
                index <= self.specialists@.len(),
                ids@ == self.specialists@.take(index as int).map_values(|r: SpecialistRecord| r.spec_id()),
            decreases self.specialists@.len() - index,
        {
            ids.push(self.specialists[index].id());
            proof {
                assert(self.specialists@.take(index + 1).map_values(|r: SpecialistRecord| r.spec_id())
                    =~= self.specialists@.take(index as int).map_values(|r: SpecialistRecord| r.spec_id()).push(
                    self.specialists@[index as int].spec_id(),
                ));
            }
            index = index + 1;
        }
        proof {
            assert(self.specialists@.take(index as int) =~= self.specialists@);
        }
        SpecialistBonuses::from_ids(ids.as_slice())
    }

    /// Adds a newly recruited specialist.
    pub(crate) fn push_specialist(&mut self, record: SpecialistRecord)
        requires
            old(self).wf(),
            specialist_of(old(self).spec_specialists(), record.spec_id()) is None,
        ensures
            final(self).wf(),
            final(self).spec_specialists() == old(self).spec_specialists().push(record),
            final(self).spec_background() == old(self).spec_background(),
            final(self).spec_next_object() == old(self).spec_next_object(),
            final(self).spec_objects() == old(self).spec_objects(),
            final(self).spec_containers() == old(self).spec_containers(),
            final(self).spec_charges() == old(self).spec_charges(),
            final(self).spec_width() == old(self).spec_width(),
            final(self).spec_height() == old(self).spec_height(),
            final(self).spec_foreground() == old(self).spec_foreground(),
            final(self).item_transport_revision_spec() == old(self).item_transport_revision_spec(),
            final(self).spec_seed() == old(self).spec_seed(),
    {
        self.specialists.push(record);
        proof {
            assert forall|a: int, b: int|
                0 <= a < self.specialists@.len() && 0 <= b < self.specialists@.len() && #[trigger] self.specialists@[a].spec_id()
                    == #[trigger] self.specialists@[b].spec_id() implies a == b by {
                let n = old(self).specialists@.len() as int;
                if a < n && b == n {
                    assert(old(self).specialists@[a].spec_id() == record.spec_id());
                } else if b < n && a == n {
                    assert(old(self).specialists@[b].spec_id() == record.spec_id());
                }
            }
        }
    }

    /// Drops the specialists whose home terminal no longer exists and
    /// returns how many were dropped.
    pub fn prune_orphaned_specialists(&mut self) -> (pruned: usize)
        requires
            old(self).wf(),
        ensures
            final(self).wf(),
            final(self).spec_specialists() == old(self).spec_specialists().filter(
                keeps_terminal(old(self).spec_objects()),
            ),
            pruned == old(self).spec_specialists().len() - final(self).spec_specialists().len(),
            final(self).spec_objects() == old(self).spec_objects(),
            final(self).spec_containers() == old(self).spec_containers(),
            final(self).spec_charges() == old(self).spec_charges(),
            final(self).spec_width() == old(self).spec_width(),
            final(self).spec_height() == old(self).spec_height(),
            final(self).spec_foreground() == old(self).spec_foreground(),
            final(self).spec_background() == old(self).spec_background(),
            final(self).spec_next_object() == old(self).spec_next_object(),
            final(self).item_transport_revision_spec() == old(self).item_transport_revision_spec(),
            final(self).spec_seed() == old(self).spec_seed(),
    {
        let terminals = self.objects_of_type(FurnitureObject::PROCUREMENT_TERMINAL);
        let ghost keep = keeps_terminal(old(self).objects@);
        let mut kept: Vec<SpecialistRecord> = Vec::new();
        let previous = self.specialists.len();
        let mut index: usize = 0;
        while index < self.specialists.len()
            invariant
                index <= self.specialists@.len(),
                self.specialists@ == old(self).specialists@,
                self.objects@ == old(self).objects@,
                terminals@ == of_type(self.objects@, FurnitureObject::PROCUREMENT_TERMINAL),
                keep == keeps_terminal(old(self).objects@),
                kept@ == self.specialists@.take(index as int).filter(keep),
                unique_specialists(self.specialists@),
                unique_specialists(kept@),
                forall|k: int| 0 <= k < kept@.len() ==> #[trigger] kept@[k] == kept@[k] && exists|j: int| 0 <= j < index && #[trigger] self.specialists@[j] == kept@[k],
            decreases self.specialists@.len() - index,
        {
            let record = self.specialists[index].clone();
            let home = record.home_terminal();
            let mut found = false;
            let mut t: usize = 0;
            while t < terminals.len()
                invariant
                    t <= terminals@.len(),
                    terminals@ == of_type(self.objects@, FurnitureObject::PROCUREMENT_TERMINAL),
                    found == exists|k: int| 0 <= k < t && #[trigger] terminals@[k].id == home,
                decreases terminals@.len() - t,
            {
                if terminals[t].id == home {
                    found = true;
                }
                t = t + 1;
            }
            proof {
                lemma_terminal_found(self.objects@, home);
                reveal(Seq::filter);
                assert(self.specialists@.take(index + 1).drop_last() =~= self.specialists@.take(index as int));
                assert(self.specialists@.take(index + 1).last() == record);
                assert(keep(record) == terminal_exists(old(self).spec_objects(), home));
                assert(keep(record) == found);
                if found {
                    assert(self.specialists@.take(index + 1).filter(keep) == self.specialists@.take(index as int).filter(keep).push(record));
                } else {
                    assert(self.specialists@.take(index + 1).filter(keep) == self.specialists@.take(index as int).filter(keep));
                }
            }
            if found {
                let ghost before = kept@;
                kept.push(record);
                proof {
                    assert forall|k: int| 0 <= k < kept@.len() implies #[trigger] kept@[k] == kept@[k] && exists|j: int| 0 <= j < index + 1 && #[trigger] self.specialists@[j] == kept@[k] by {
                        if k < before.len() {
                            assert(kept@[k] == before[k]);
                        } else {
                            assert(self.specialists@[index as int] == kept@[k]);
                        }
                    }
                    assert forall|a: int, b: int|
                        0 <= a < kept@.len() && 0 <= b < kept@.len() && #[trigger] kept@[a].spec_id() == #[trigger] kept@[b].spec_id() implies a == b by {
                        if a < before.len() && b == before.len() {
                            let j = choose|j: int| 0 <= j < index && #[trigger] self.specialists@[j] == kept@[a];
                            assert(self.specialists@[j].spec_id() == self.specialists@[index as int].spec_id());
                        } else if b < before.len() && a == before.len() {
                            let j = choose|j: int| 0 <= j < index && #[trigger] self.specialists@[j] == kept@[b];
                            assert(self.specialists@[j].spec_id() == self.specialists@[index as int].spec_id());
                        }
                    }
                }
            }
            index = index + 1;
        }
        proof {
            assert(self.specialists@.take(index as int) =~= self.specialists@);
        }
        self.specialists = kept;
        proof {
            self.specialists@.filter_lemma(keep);
            old(self).specialists@.filter_lemma(keep);
        }
        previous - self.specialists.len()
    }
}

pub open spec fn unique_specialists(records: Seq<SpecialistRecord>) -> bool {
    forall|i: int, j: int|
        0 <= i < records.len() && 0 <= j < records.len() && #[trigger] records[i].spec_id() == #[trigger] records[j].spec_id()
            ==> i == j
}

proof fn lemma_terminal_found(objects: Seq<WorldObject>, id: ObjectId)
    ensures
        terminal_exists(objects, id) == exists|k: int|
            0 <= k < of_type(objects, FurnitureObject::PROCUREMENT_TERMINAL).len() && #[trigger] of_type(
                objects,
                FurnitureObject::PROCUREMENT_TERMINAL,
            )[k].id == id,
{
    let pred = |o: WorldObject| o.object_type == FurnitureObject::PROCUREMENT_TERMINAL;
    objects.filter_lemma(pred);
    let terminals = of_type(objects, FurnitureObject::PROCUREMENT_TERMINAL);
    if terminal_exists(objects, id) {
        let i = choose|i: int|
            0 <= i < objects.len() && #[trigger] objects[i].id == id && objects[i].object_type
                == FurnitureObject::PROCUREMENT_TERMINAL;
        assert(terminals.contains(objects[i]));
        let k = choose|k: int| 0 <= k < terminals.len() && terminals[k] == objects[i];
        assert(terminals[k].id == id);
    }
    if exists|k: int| 0 <= k < terminals.len() && #[trigger] terminals[k].id == id {
        let k = choose|k: int| 0 <= k < terminals.len() && #[trigger] terminals[k].id == id;
        lemma_of_type_member(objects, FurnitureObject::PROCUREMENT_TERMINAL, k);
        let i = choose|i: int| 0 <= i < objects.len() && #[trigger] objects[i] == terminals[k];
        assert(objects[i].id == id);
    }
}

/// Whether nothing in the foreground lies above an object's footprint.
pub open spec fn sky_clear(world: World, object: WorldObject) -> bool {
    forall|x: u32, y: u32|
        object.anchor.x <= x < object.anchor.x + object.width && y < object.anchor.y ==> #[trigger] world.tile(x, y)
            == EMPTY_TILE
}

/// Height of one tile row, in decimetres.
pub const DECIMETRES_PER_TILE: i64 = 10;

/// The lowest elevation, in decimetres, at which sky access still counts:
/// exporters only work above -100 m.
pub const MIN_SKY_ACCESS_ELEVATION_DECIMETRES: i64 = -1000;

/// The elevation of a tile row in decimetres: the top row is at 0 m and
/// each row down is one tile lower.
pub open spec fn elevation_spec(row: u32) -> int {
    -(row as int) * DECIMETRES_PER_TILE
}

/// Whether an object's lowest row lies above the sky access floor.
pub open spec fn above_floor(object: WorldObject) -> bool {
    elevation_spec((object.anchor.y + object.height - 1) as u32) > MIN_SKY_ACCESS_ELEVATION_DECIMETRES
}

/// Sky access: open sky above the object, and the object above -100 m.
pub open spec fn sky_access(world: World, object: WorldObject) -> bool {
    sky_clear(world, object) && above_floor(object)
}

/// Sky access needs every column of the footprint open: a foreground block
/// anywhere above any of its columns denies it.
pub proof fn law_block_above_any_column_denies_sky(world: World, object: WorldObject, x: u32, y: u32)
    requires
        object.anchor.x <= x < object.anchor.x + object.width,
        y < object.anchor.y,
        world.tile(x, y) != EMPTY_TILE,
    ensures
        !sky_access(world, object),
{
}

/// With sky access, every foreground tile above the footprint is empty.
pub proof fn law_sky_access_means_open_columns(world: World, object: WorldObject, x: u32, y: u32)
    requires
        sky_access(world, object),
        object.anchor.x <= x < object.anchor.x + object.width,
        y < object.anchor.y,
    ensures
        world.tile(x, y) == EMPTY_TILE,
{
}

/// An object whose lowest row lies one hundred rows (-100 m) or more below
/// the top has no sky access, even under open sky.
pub proof fn law_no_sky_below_minus_one_hundred_metres(world: World, object: WorldObject)
    requires
        object.height >= 1,
        object.anchor.y + object.height - 1 >= 100,
        object.anchor.y + object.height - 1 <= u32::MAX,
    ensures
        !sky_access(world, object),
{
}

/// An object whose lowest row lies above -100 m, with every tile above its
/// columns empty, has sky access.
pub proof fn law_open_sky_above_minus_one_hundred_metres(world: World, object: WorldObject)
    requires
        object.height >= 1,
        object.anchor.y + object.height - 1 < 100,
        forall|x: u32, y: u32|
            object.anchor.x <= x < object.anchor.x + object.width && y < object.anchor.y ==> #[trigger] world.tile(x, y)
                == EMPTY_TILE,
    ensures
        sky_access(world, object),
{
}

/// Open sky depends on the foreground alone.
pub proof fn lemma_sky_clear_same(first: World, second: World, object: WorldObject)
    requires
        first.spec_foreground() == second.spec_foreground(),
        first.spec_width() == second.spec_width(),
    ensures
        sky_clear(first, object) == sky_clear(second, object),
        sky_access(first, object) == sky_access(second, object),
{
    assert forall|x: u32, y: u32| first.tile(x, y) == second.tile(x, y) by {}
}

impl World {
    /// The elevation of a tile row in decimetres.
    pub fn elevation_decimetres(&self, row: u32) -> (elevation: i64)
        requires
            self.wf(),
            row < self.spec_height(),
        ensures
            elevation == elevation_spec(row),
    {
        proof {
            self.lemma_wf();
        }
        -(row as i64) * DECIMETRES_PER_TILE
    }

    /// Whether an orbital export launcher sees open sky straight above it
    /// and stands above -100 m.
    pub fn orbital_export_has_sky_access(&self, launcher: ObjectId) -> (open: bool)
        requires
            self.wf(),
        ensures
            open == (self.object_spec(launcher) matches Some(object) && object.object_type
                == FurnitureObject::ORBITAL_EXPORT_LAUNCHER && sky_access(*self, object)),
    {
        let object = match self.object(launcher) {
            Some(object) => object,
            None => return false,
        };
        if object.object_type != FurnitureObject::ORBITAL_EXPORT_LAUNCHER {
            return false;
        }
        proof {
            self.lemma_wf();
            let i = index_of(self.spec_objects(), launcher)->0;
            assert(in_bounds(self.spec_objects()[i], self.spec_width(), self.spec_height()));
        }
        if self.elevation_decimetres(object.anchor.y + object.height as u32 - 1) <= MIN_SKY_ACCESS_ELEVATION_DECIMETRES {
            return false;
        }
        let mut y: u32 = 0;
        while y < object.anchor.y
            invariant
                self.wf(),
                self.object_spec(launcher) == Some(object),
                object.object_type == FurnitureObject::ORBITAL_EXPORT_LAUNCHER,
                object.anchor.x + object.width <= self.spec_width(),
                object.anchor.y + object.height <= self.spec_height(),
                y <= object.anchor.y,
                forall|cx: u32, cy: u32|
                    object.anchor.x <= cx < object.anchor.x + object.width && cy < y ==> #[trigger] self.tile(cx, cy)
                        == EMPTY_TILE,
            decreases object.anchor.y - y,
        {
            let mut x: u32 = object.anchor.x;
            while x < object.anchor.x + object.width as u32
                invariant
                    self.wf(),
                    self.object_spec(launcher) == Some(object),
                    object.object_type == FurnitureObject::ORBITAL_EXPORT_LAUNCHER,
                    object.anchor.x + object.width <= self.spec_width(),
                    object.anchor.y + object.height <= self.spec_height(),
                    y < object.anchor.y,
                    object.anchor.x <= x,
                    forall|cx: u32, cy: u32|
                        object.anchor.x <= cx < object.anchor.x + object.width && cy < y ==> #[trigger] self.tile(cx, cy)
                            == EMPTY_TILE,
                    forall|cx: u32| object.anchor.x <= cx < x ==> #[trigger] self.tile(cx, y) == EMPTY_TILE,
                decreases object.anchor.x + object.width - x,
            {
                if self.foreground_tile(x, y) != EMPTY_TILE {
                    assert(!sky_clear(*self, object)) by {
                        assert(self.tile(x, y) != EMPTY_TILE);
                    }
                    return false;
                }
                x = x + 1;
            }
            y = y + 1;
        }
        true
    }
}

} // verus!
