use vstd::prelude::*;
use crate::specialists::{HouseRequirements, SpecialistId, SpecialistRecord, bonus_table, neighbours, specialist_definition};
use crate::terrain::{FurnitureObject, ObjectId, TilePos};
use crate::world::{EMPTY_TILE, RecruitSpecialistError, World, object_at_spec, specialist_of};

verus! {

/// The smallest interior a home may have.
pub const MIN_HOUSE_INTERIOR_CELLS: usize = 12;
/// The flood fill gives up after this many interior cells.
pub const MAX_HOUSE_INTERIOR_CELLS: usize = 1_024;
/// The foreground block that lights a room.
pub const LIGHT_TILE: u16 = 4;

/// A neighbour of a tile: west, east, north, south; none past the `u32`
/// range.
pub open spec fn neighbour_at(position: TilePos, k: int) -> Option<TilePos> {
    if k == 0 {
        if position.x > 0 { Some(TilePos { x: (position.x - 1) as u32, y: position.y }) } else { None }
    } else if k == 1 {
        if position.x < u32::MAX { Some(TilePos { x: (position.x + 1) as u32, y: position.y }) } else { None }
    } else if k == 2 {
        if position.y > 0 { Some(TilePos { x: position.x, y: (position.y - 1) as u32 }) } else { None }
    } else {
        if position.y < u32::MAX { Some(TilePos { x: position.x, y: (position.y + 1) as u32 }) } else { None }
    }
}

pub open spec fn inside(world: World, position: TilePos) -> bool {
    position.x < world.spec_width() && position.y < world.spec_height()
}

/// Whether a tile holds a door or other furniture that bounds a room.
pub open spec fn boundary_at(world: World, position: TilePos) -> bool {
    object_at_spec(world.spec_objects(), position) matches Some(object) && object.object_type == FurnitureObject::DOOR
}

/// Whether the flood fill may step into a tile: inside the world, open in
/// the foreground and not a room boundary.
pub open spec fn passable(world: World, position: TilePos) -> bool {
    inside(world, position) && world.tile(position.x, position.y) == EMPTY_TILE && !boundary_at(world, position)
}

/// Whether a neighbour exists and lies inside the world.
pub open spec fn inside_opt(world: World, neighbour: Option<TilePos>) -> bool {
    match neighbour {
        Some(n) => inside(world, n),
        None => false,
    }
}

/// Whether a neighbour is a light block.
pub open spec fn light_opt(world: World, neighbour: Option<TilePos>) -> bool {
    match neighbour {
        Some(n) => inside(world, n) && world.tile(n.x, n.y) != EMPTY_TILE && world.tile(n.x, n.y) == LIGHT_TILE,
        None => false,
    }
}

/// Whether a neighbour is an open tile holding a room boundary.
pub open spec fn door_opt(world: World, neighbour: Option<TilePos>) -> bool {
    match neighbour {
        Some(n) => inside(world, n) && world.tile(n.x, n.y) == EMPTY_TILE && boundary_at(world, n),
        None => false,
    }
}

/// Whether a neighbour is passable.
pub open spec fn passable_opt(world: World, neighbour: Option<TilePos>) -> bool {
    match neighbour {
        Some(n) => passable(world, n),
        None => false,
    }
}

/// Whether a room cell has a neighbour that is missing or outside the world.
pub open spec fn open_edge(world: World, cell: TilePos) -> bool {
    exists|k: int| 0 <= k < 4 && !inside_opt(world, #[trigger] neighbour_at(cell, k))
}

pub open spec fn lit_by(world: World, cell: TilePos) -> bool {
    exists|k: int| 0 <= k < 4 && light_opt(world, #[trigger] neighbour_at(cell, k))
}

pub open spec fn door_next_to(world: World, cell: TilePos) -> bool {
    exists|k: int| 0 <= k < 4 && door_opt(world, #[trigger] neighbour_at(cell, k))
}

pub open spec fn bed_at(world: World, cell: TilePos) -> bool {
    object_at_spec(world.spec_objects(), cell) matches Some(object) && object.object_type == FurnitureObject::BED
}

/// Whether a tile is solid ground: a foreground block or structural
/// furniture.
pub open spec fn solid_at(world: World, position: TilePos) -> bool {
    world.tile(position.x, position.y) != EMPTY_TILE || (object_at_spec(world.spec_objects(), position) matches Some(
        object,
    ) && object.object_type == FurnitureObject::DIRECTIONAL_SENTRY)
}

/// Whether a specialist can stand in a room cell: open, on solid ground,
/// with open headroom free of structural furniture.
pub open spec fn standing_spec(world: World, cell: TilePos) -> bool {
    &&& cell.y + 1 < world.spec_height()
    &&& world.tile(cell.x, cell.y) == EMPTY_TILE
    &&& solid_at(world, TilePos { x: cell.x, y: (cell.y + 1) as u32 })
    &&& cell.y >= 1
    &&& world.tile(cell.x, (cell.y - 1) as u32) == EMPTY_TILE
    &&& !(object_at_spec(world.spec_objects(), TilePos { x: cell.x, y: (cell.y - 1) as u32 }) matches Some(object)
        && object.object_type == FurnitureObject::DIRECTIONAL_SENTRY)
}

/// Whether every passable neighbour of a room cell is in the room.
pub open spec fn closed_room(world: World, cells: Seq<TilePos>) -> bool {
    forall|i: int, k: int|
        0 <= i < cells.len() && 0 <= k < 4 && passable_opt(world, #[trigger] neighbour_at(cells[i], k)) ==> cells.contains(
            neighbour_at(cells[i], k)->0,
        )
}

/// Whether each room cell after the first is a passable neighbour of an
/// earlier one.
pub open spec fn grown_from(world: World, cells: Seq<TilePos>, seed: TilePos) -> bool {
    &&& cells.len() > 0
    &&& cells[0] == seed
    &&& forall|i: int| 1 <= i < cells.len() ==> #[trigger] has_parent(world, cells, i)
}

/// Some earlier cell has cell `i` as a passable neighbour.
pub open spec fn has_parent(world: World, cells: Seq<TilePos>, i: int) -> bool {
    exists|j: int, k: int| #[trigger] stem(world, cells, i, j, k)
}

#[verifier::opaque]
pub open spec fn distinct(cells: Seq<TilePos>) -> bool {
    forall|i: int, j: int| 0 <= i < j < cells.len() ==> #[trigger] cells[i] != #[trigger] cells[j]
}

/// The requirements a room's cells meet.
pub open spec fn requirements_of(world: World, cells: Seq<TilePos>, standing: Seq<TilePos>) -> HouseRequirements {
    HouseRequirements {
        enclosed: (forall|i: int| 0 <= i < cells.len() ==> !open_edge(world, #[trigger] cells[i])) && closed_room(
            world,
            cells,
        ),
        background_walls: forall|i: int|
            0 <= i < cells.len() ==> world.back_tile(#[trigger] cells[i].x, cells[i].y) != EMPTY_TILE,
        door: exists|i: int| 0 <= i < cells.len() && door_next_to(world, #[trigger] cells[i]),
        light: exists|i: int| 0 <= i < cells.len() && lit_by(world, #[trigger] cells[i]),
        bed: exists|i: int| 0 <= i < cells.len() && bed_at(world, #[trigger] cells[i]),
        enough_space: cells.len() >= MIN_HOUSE_INTERIOR_CELLS && standing.len() > 0,
    }
}

/// A home's requirements, its interior cells in flood-fill order and the
/// interior cells a specialist can stand in.
#[derive(Clone, Debug, PartialEq, Eq)]
pub struct RoomAssessment {
    terminal: ObjectId,
    requirements: HouseRequirements,
    interior_cells: Vec<TilePos>,
    standing_cells: Vec<TilePos>,
}

impl RoomAssessment {
    pub closed spec fn spec_terminal(&self) -> ObjectId {
        self.terminal
    }

    pub closed spec fn spec_requirements(&self) -> HouseRequirements {
        self.requirements
    }

    pub closed spec fn spec_interior(&self) -> Seq<TilePos> {
        self.interior_cells@
    }

    pub closed spec fn spec_standing(&self) -> Seq<TilePos> {
        self.standing_cells@
    }

    pub fn terminal(&self) -> (terminal: ObjectId)
        ensures
            terminal == self.spec_terminal(),
    {
        self.terminal
    }

    pub fn requirements(&self) -> (requirements: HouseRequirements)
        ensures
            requirements == self.spec_requirements(),
    {
        self.requirements
    }

    pub fn is_valid(&self) -> (valid: bool)
        ensures
            valid == self.spec_requirements().spec_is_valid(),
    {
        self.requirements.is_valid()
    }

    pub fn interior_cells(&self) -> (cells: &[TilePos])
        ensures
            cells@ == self.spec_interior(),
    {
        self.interior_cells.as_slice()
    }

    /// The interior cells where a specialist can stand.
    pub fn standing_cells(&self) -> (cells: &[TilePos])
        ensures
            cells@ == self.spec_standing(),
    {
        self.standing_cells.as_slice()
    }
}

/// The standing test as a predicate over cells.
pub open spec fn standing_in(world: World) -> spec_fn(TilePos) -> bool {
    |cell: TilePos| standing_spec(world, cell)
}

/// What an assessment of the room around a tile states.
pub open spec fn assessed_from(world: World, seed: TilePos, room: RoomAssessment) -> bool {
    let cells = room.spec_interior();
    &&& grown_from(world, cells, seed)
    &&& breadth_first(world, cells)
    &&& distinct(cells)
    &&& cells.len() <= MAX_HOUSE_INTERIOR_CELLS
    &&& cells.len() < MAX_HOUSE_INTERIOR_CELLS ==> closed_room(world, cells)
    &&& room.spec_standing() == cells.filter(standing_in(world))
    &&& room.spec_requirements() == requirements_of(world, cells, room.spec_standing())
}

/// A room has enough space only with at least twelve interior cells and a
/// cell where a specialist can stand: a smaller room never has enough
/// space, however it is furnished.
pub proof fn law_small_room_lacks_space(world: World, seed: TilePos, room: RoomAssessment)
    requires
        assessed_from(world, seed, room),
        room.spec_requirements().enough_space,
    ensures
        room.spec_interior().len() >= 12,
        room.spec_standing().len() > 0,
        exists|i: int| 0 <= i < room.spec_interior().len() && standing_spec(world, #[trigger] room.spec_interior()[i]),
{
    lemma_standing_nonempty(world, room.spec_interior());
}

/// Each cell grown from a seed lies in any closed room that holds the seed.
proof fn lemma_grown_inside(world: World, grown: Seq<TilePos>, seed: TilePos, closed: Seq<TilePos>, i: int)
    requires
        grown_from(world, grown, seed),
        closed.len() > 0,
        closed[0] == seed,
        closed_room(world, closed),
        0 <= i < grown.len(),
    ensures
        closed.contains(grown[i]),
    decreases i,
{
    if i == 0 {
        assert(closed[0] == grown[0]);
    } else {
        assert(has_parent(world, grown, i));
        let (j, k) = choose|j: int, k: int| #[trigger] stem(world, grown, i, j, k);
        lemma_grown_inside(world, grown, seed, closed, j);
        let m = choose|m: int| 0 <= m < closed.len() && closed[m] == grown[j];
        assert(passable_opt(world, neighbour_at(closed[m], k)));
    }
}

/// A list of distinct cells that all lie in another list is no longer.
proof fn lemma_distinct_within(a: Seq<TilePos>, b: Seq<TilePos>)
    requires
        distinct(a),
        forall|i: int| 0 <= i < a.len() ==> b.contains(#[trigger] a[i]),
    ensures
        a.len() <= b.len(),
{
    broadcast use vstd::seq_lib::seq_to_set_is_finite;
    reveal(distinct);
    assert(a.no_duplicates());
    a.unique_seq_to_set();
    b.lemma_cardinality_of_set();
    assert(a.to_set().subset_of(b.to_set())) by {
        assert forall|x: TilePos| a.to_set().contains(x) implies b.to_set().contains(x) by {
            let i = choose|i: int| 0 <= i < a.len() && a[i] == x;
            assert(b.contains(a[i]));
        }
    }
    vstd::set_lib::lemma_len_subset(a.to_set(), b.to_set());
}

/// Whether a list has a cell where a specialist can stand.
proof fn lemma_standing_nonempty(world: World, cells: Seq<TilePos>)
    ensures
        (cells.filter(standing_in(world)).len() > 0) == (exists|i: int| 0 <= i < cells.len() && #[trigger] standing_spec(world, cells[i])),
{
    let pred = standing_in(world);
    cells.filter_lemma(pred);
    if cells.filter(pred).len() > 0 {
        assert(cells.filter(pred).contains(cells.filter(pred)[0]));
        cells.lemma_filter_contains_rev(pred, cells.filter(pred)[0]);
        let i = choose|i: int| 0 <= i < cells.len() && cells[i] == cells.filter(pred)[0];
        assert(standing_spec(world, cells[i]));
    }
    if exists|i: int| 0 <= i < cells.len() && #[trigger] standing_spec(world, cells[i]) {
        let i = choose|i: int| 0 <= i < cells.len() && #[trigger] standing_spec(world, cells[i]);
        cells.lemma_filter_contains(pred, i);
    }
}

/// Two assessments of the room around one tile agree when the room closes
/// below the cell limit: the flood fill finds the same cells whatever order
/// it visits them in, and so the same requirements.
pub proof fn law_rooms_agree(world: World, seed: TilePos, first: RoomAssessment, second: RoomAssessment)
    requires
        assessed_from(world, seed, first),
        assessed_from(world, seed, second),
        first.spec_interior().len() < MAX_HOUSE_INTERIOR_CELLS,
    ensures
        second.spec_interior().len() < MAX_HOUSE_INTERIOR_CELLS,
        first.spec_requirements() == second.spec_requirements(),
{
    let a = first.spec_interior();
    let b = second.spec_interior();
    assert forall|i: int| 0 <= i < b.len() implies a.contains(#[trigger] b[i]) by {
        lemma_grown_inside(world, b, seed, a, i);
    }
    lemma_distinct_within(b, a);
    assert forall|i: int| 0 <= i < a.len() implies b.contains(#[trigger] a[i]) by {
        lemma_grown_inside(world, a, seed, b, i);
    }
    lemma_distinct_within(a, b);
    assert forall|c: TilePos| a.contains(c) == b.contains(c) by {
        if a.contains(c) {
            let i = choose|i: int| 0 <= i < a.len() && a[i] == c;
            assert(b.contains(a[i]));
        }
        if b.contains(c) {
            let i = choose|i: int| 0 <= i < b.len() && b[i] == c;
            assert(a.contains(b[i]));
        }
    }
    lemma_standing_nonempty(world, a);
    lemma_standing_nonempty(world, b);
    let ra = requirements_of(world, a, first.spec_standing());
    let rb = requirements_of(world, b, second.spec_standing());
    assert(ra.enclosed == rb.enclosed) by {
        if ra.enclosed {
            assert forall|i: int| 0 <= i < b.len() implies !open_edge(world, #[trigger] b[i]) by {
                assert(a.contains(b[i]));
                let m = choose|m: int| 0 <= m < a.len() && a[m] == b[i];
            }
        }
        if rb.enclosed {
            assert forall|i: int| 0 <= i < a.len() implies !open_edge(world, #[trigger] a[i]) by {
                assert(b.contains(a[i]));
                let m = choose|m: int| 0 <= m < b.len() && b[m] == a[i];
            }
        }
    }
    assert(ra.background_walls == rb.background_walls) by {
        if ra.background_walls {
            assert forall|i: int| 0 <= i < b.len() implies world.back_tile(#[trigger] b[i].x, b[i].y) != EMPTY_TILE by {
                assert(a.contains(b[i]));
                let m = choose|m: int| 0 <= m < a.len() && a[m] == b[i];
                assert(world.back_tile(a[m].x, a[m].y) != EMPTY_TILE);
            }
        }
        if rb.background_walls {
            assert forall|i: int| 0 <= i < a.len() implies world.back_tile(#[trigger] a[i].x, a[i].y) != EMPTY_TILE by {
                assert(b.contains(a[i]));
                let m = choose|m: int| 0 <= m < b.len() && b[m] == a[i];
                assert(world.back_tile(b[m].x, b[m].y) != EMPTY_TILE);
            }
        }
    }
    assert(ra.door == rb.door) by {
        if ra.door {
            let i = choose|i: int| 0 <= i < a.len() && door_next_to(world, #[trigger] a[i]);
            assert(b.contains(a[i]));
            let m = choose|m: int| 0 <= m < b.len() && b[m] == a[i];
            assert(door_next_to(world, b[m]));
        }
        if rb.door {
            let i = choose|i: int| 0 <= i < b.len() && door_next_to(world, #[trigger] b[i]);
            assert(a.contains(b[i]));
            let m = choose|m: int| 0 <= m < a.len() && a[m] == b[i];
            assert(door_next_to(world, a[m]));
        }
    }
    assert(ra.light == rb.light) by {
        if ra.light {
            let i = choose|i: int| 0 <= i < a.len() && lit_by(world, #[trigger] a[i]);
            assert(b.contains(a[i]));
            let m = choose|m: int| 0 <= m < b.len() && b[m] == a[i];
            assert(lit_by(world, b[m]));
        }
        if rb.light {
            let i = choose|i: int| 0 <= i < b.len() && lit_by(world, #[trigger] b[i]);
            assert(a.contains(b[i]));
            let m = choose|m: int| 0 <= m < a.len() && a[m] == b[i];
            assert(lit_by(world, a[m]));
        }
    }
    assert(ra.bed == rb.bed) by {
        if ra.bed {
            let i = choose|i: int| 0 <= i < a.len() && bed_at(world, #[trigger] a[i]);
            assert(b.contains(a[i]));
            let m = choose|m: int| 0 <= m < b.len() && b[m] == a[i];
            assert(bed_at(world, b[m]));
        }
        if rb.bed {
            let i = choose|i: int| 0 <= i < b.len() && bed_at(world, #[trigger] b[i]);
            assert(a.contains(b[i]));
            let m = choose|m: int| 0 <= m < a.len() && a[m] == b[i];
            assert(bed_at(world, a[m]));
        }
    }
    assert(ra.enough_space == rb.enough_space) by {
        if exists|i: int| 0 <= i < a.len() && #[trigger] standing_spec(world, a[i]) {
            let i = choose|i: int| 0 <= i < a.len() && #[trigger] standing_spec(world, a[i]);
            assert(b.contains(a[i]));
            let m = choose|m: int| 0 <= m < b.len() && b[m] == a[i];
            assert(standing_spec(world, b[m]));
        }
        if exists|i: int| 0 <= i < b.len() && #[trigger] standing_spec(world, b[i]) {
            let i = choose|i: int| 0 <= i < b.len() && #[trigger] standing_spec(world, b[i]);
            assert(a.contains(b[i]));
            let m = choose|m: int| 0 <= m < a.len() && a[m] == b[i];
            assert(standing_spec(world, a[m]));
        }
    }
}

/// In a breadth-first list, a passable cell missing before position `i`
/// and reached by neighbour `k` of cell `j` is not reached by a way looked
/// at before the first way to cell `i`.
proof fn lemma_bfs_ahead(world: World, x: Seq<TilePos>, px: Seq<(int, int)>, i: int, j: int, k: int, c: TilePos)
    requires
        bfs_links(world, x, px),
        1 <= i < x.len(),
        0 <= j,
        0 <= k < 4,
        j < x.len(),
        neighbour_at(x[j], k) == Some(c),
        passable(world, c),
        forall|m: int| 0 <= m < i ==> x[m] != c,
    ensures
        !reach_before((j, k), px[i]),
{
    reveal(bfs_links);
    reveal(first_links);
    if reach_before((j, k), px[i]) {
        let last = x.len() - 1;
        if i < last {
            assert(reach_before(px[i], px[last]));
        }
        assert(reach_before((j, k), px[last]));
        assert(passable_opt(world, neighbour_at(x[j], k)));
        assert(x.contains(neighbour_at(x[j], k)->0));
        let w = choose|w: int| 0 <= w < x.len() && x[w] == c;
        assert(w >= i);
        if w > i {
            assert(reach_before(px[i], px[w]));
        }
        assert(first_reach(x, w, px[w].0, px[w].1));
        assert(neighbour_at(x[j], k) != Some(x[w]));
    }
}

/// Two breadth-first lists of one length from the same first cell agree
/// at a cell when they agree before it.
proof fn lemma_bfs_step(
    world: World,
    a: Seq<TilePos>,
    b: Seq<TilePos>,
    pa: Seq<(int, int)>,
    pb: Seq<(int, int)>,
    i: int,
)
    requires
        a.len() == b.len(),
        distinct(a),
        distinct(b),
        bfs_links(world, a, pa),
        bfs_links(world, b, pb),
        1 <= i < a.len(),
        forall|m: int| 0 <= m < i ==> a[m] == b[m],
    ensures
        a[i] == b[i],
{
    reveal(bfs_links);
    reveal(distinct);
    let ja = pa[i].0;
    let ka = pa[i].1;
    let jb = pb[i].0;
    let kb = pb[i].1;
    assert(stem(world, a, i, ja, ka));
    assert(stem(world, b, i, jb, kb));
    assert(a[ja] == b[ja]);
    assert(a[jb] == b[jb]);
    if reach_before(pa[i], pb[i]) {
        assert forall|m: int| 0 <= m < i implies b[m] != a[i] by {
            assert(a[m] != a[i]);
        }
        lemma_bfs_ahead(world, b, pb, i, ja, ka, a[i]);
    } else if reach_before(pb[i], pa[i]) {
        assert forall|m: int| 0 <= m < i implies a[m] != b[i] by {
            assert(b[m] != b[i]);
        }
        lemma_bfs_ahead(world, a, pa, i, jb, kb, b[i]);
    } else {
        assert(ja == jb && ka == kb);
    }
}

proof fn lemma_bfs_prefix(
    world: World,
    a: Seq<TilePos>,
    b: Seq<TilePos>,
    pa: Seq<(int, int)>,
    pb: Seq<(int, int)>,
    i: int,
)
    requires
        a.len() == b.len(),
        a[0] == b[0],
        distinct(a),
        distinct(b),
        bfs_links(world, a, pa),
        bfs_links(world, b, pb),
        0 <= i < a.len(),
    ensures
        forall|m: int| 0 <= m <= i ==> a[m] == b[m],
    decreases i,
{
    if i > 0 {
        lemma_bfs_prefix(world, a, b, pa, pb, i - 1);
        lemma_bfs_step(world, a, b, pa, pb, i);
    }
}

/// The assessment of the room around a tile is determined by the world:
/// any two assessments list the same interior cells in the same order,
/// the same standing cells and the same requirements, also when the fill
/// stops at the cell limit.
pub proof fn law_room_assessment_determined(world: World, seed: TilePos, first: RoomAssessment, second: RoomAssessment)
    requires
        assessed_from(world, seed, first),
        assessed_from(world, seed, second),
    ensures
        first.spec_interior() == second.spec_interior(),
        first.spec_standing() == second.spec_standing(),
        first.spec_requirements() == second.spec_requirements(),
{
    let a = first.spec_interior();
    let b = second.spec_interior();
    if a.len() < MAX_HOUSE_INTERIOR_CELLS {
        law_rooms_agree(world, seed, first, second);
        assert forall|i: int| 0 <= i < b.len() implies a.contains(#[trigger] b[i]) by {
            lemma_grown_inside(world, b, seed, a, i);
        }
        lemma_distinct_within(b, a);
        assert forall|i: int| 0 <= i < a.len() implies b.contains(#[trigger] a[i]) by {
            lemma_grown_inside(world, a, seed, b, i);
        }
        lemma_distinct_within(a, b);
    } else if b.len() < MAX_HOUSE_INTERIOR_CELLS {
        law_rooms_agree(world, seed, second, first);
    }
    assert(a.len() == b.len());
    let pa = choose|p: Seq<(int, int)>| bfs_links(world, a, p);
    let pb = choose|p: Seq<(int, int)>| bfs_links(world, b, p);
    lemma_bfs_prefix(world, a, b, pa, pb, a.len() - 1);
    assert(a =~= b);
}

fn contains_cell(cells: &Vec<TilePos>, cell: TilePos) -> (found: bool)
    ensures
        found == cells@.contains(cell),
{
    let mut index: usize = 0;
    while index < cells.len()
        invariant
            index <= cells@.len(),
            forall|i: int| 0 <= i < index ==> #[trigger] cells@[i] != cell,
        decreases cells@.len() - index,
    {
        if cells[index] == cell {
            assert(cells@[index as int] == cell);
            return true;
        }
        index = index + 1;
    }
    false
}

fn structural_at(world: &World, position: TilePos) -> (structural: bool)
    ensures
        structural == (object_at_spec(world.spec_objects(), position) matches Some(object) && object.object_type
            == FurnitureObject::DIRECTIONAL_SENTRY),
{
    match world.object_at(position) {
        Some(object) => object.object_type == FurnitureObject::DIRECTIONAL_SENTRY,
        None => false,
    }
}

/// Whether a specialist can stand in a cell.
fn standing_cell(world: &World, cell: TilePos) -> (standing: bool)
    requires
        world.wf(),
        inside(*world, cell),
    ensures
        standing == standing_spec(*world, cell),
{
    if cell.y >= u32::MAX || cell.y + 1 >= world.height() {
        return false;
    }
    if world.foreground_tile(cell.x, cell.y) != EMPTY_TILE {
        return false;
    }
    let below = TilePos::new(cell.x, cell.y + 1);
    if world.foreground_tile(cell.x, cell.y + 1) == EMPTY_TILE && !structural_at(world, below) {
        return false;
    }
    if cell.y == 0 {
        return false;
    }
    if world.foreground_tile(cell.x, cell.y - 1) != EMPTY_TILE {
        return false;
    }
    !structural_at(world, TilePos::new(cell.x, cell.y - 1))
}

/// Each cell after the first is a passable neighbour of an earlier cell
/// among the first `processed`.
/// Cell `j` is an earlier cell whose `k`-th neighbour is cell `i`, which is
/// passable.
pub open spec fn stem(world: World, order: Seq<TilePos>, i: int, j: int, k: int) -> bool {
    0 <= j < i && 0 <= k < 4 && neighbour_at(order[j], k) == Some(order[i]) && passable(world, order[i])
}

/// Whether neighbour `a.1` of cell `a.0` is looked at before neighbour
/// `b.1` of cell `b.0` in a breadth-first fill: earlier cells first, and
/// within a cell its neighbours in order.
pub open spec fn reach_before(a: (int, int), b: (int, int)) -> bool {
    a.0 < b.0 || (a.0 == b.0 && a.1 < b.1)
}

/// Neighbour `k` of cell `j` is the first way to cell `i`: no neighbour
/// looked at before it leads there.
pub open spec fn first_reach(cells: Seq<TilePos>, i: int, j: int, k: int) -> bool {
    forall|j2: int, k2: int|
        0 <= j2 && 0 <= k2 < 4 && reach_before((j2, k2), (j, k)) ==> #[trigger] neighbour_at(cells[j2], k2) != Some(
            cells[i],
        )
}

/// Each recorded way to a cell is the first way to it, and cells come in
/// the order in which their ways are looked at.
#[verifier::opaque]
pub open spec fn first_links(order: Seq<TilePos>, parents: Seq<(int, int)>) -> bool {
    &&& forall|i: int| 1 <= i < order.len() ==> #[trigger] first_reach(order, i, parents[i].0, parents[i].1)
    &&& forall|a: int, b: int|
        1 <= a < b < order.len() ==> reach_before(#[trigger] parents[a], #[trigger] parents[b])
}

/// The links of a breadth-first fill stopped after its last cell: each cell
/// after the first is reached by its first way, in the order the ways are
/// looked at, and every passable neighbour looked at before the last cell's
/// way is among the cells.
#[verifier::opaque]
pub open spec fn bfs_links(world: World, cells: Seq<TilePos>, parents: Seq<(int, int)>) -> bool {
    &&& parents.len() == cells.len()
    &&& forall|i: int| 1 <= i < cells.len() ==> #[trigger] stem(world, cells, i, parents[i].0, parents[i].1)
    &&& first_links(cells, parents)
    &&& cells.len() >= 2 ==> forall|j: int, k: int|
        0 <= j < cells.len() && 0 <= k < 4 && reach_before((j, k), parents[cells.len() - 1]) && passable_opt(
            world,
            #[trigger] neighbour_at(cells[j], k),
        ) ==> cells.contains(neighbour_at(cells[j], k)->0)
}

/// The cells are the first ones a breadth-first fill from the first cell
/// visits, looking at each cell's neighbours left, right, up, down.
pub open spec fn breadth_first(world: World, cells: Seq<TilePos>) -> bool {
    exists|parents: Seq<(int, int)>| bfs_links(world, cells, parents)
}

/// Each cell after the first was reached from the recorded earlier cell,
/// one of the first `processed`.
#[verifier::opaque]
pub open spec fn grown_within(world: World, order: Seq<TilePos>, parents: Seq<(int, int)>, processed: int) -> bool {
    &&& parents.len() == order.len()
    &&& forall|i: int|
        1 <= i < order.len() ==> #[trigger] parents[i].0 < processed && stem(world, order, i, parents[i].0, parents[i].1)
}

/// Every passable neighbour of the first `processed` cells is listed.
#[verifier::opaque]
pub open spec fn closed_within(world: World, order: Seq<TilePos>, processed: int) -> bool {
    forall|j: int, k: int|
        0 <= j < processed && 0 <= k < 4 && passable_opt(world, #[trigger] neighbour_at(order[j], k)) ==> order.contains(
            neighbour_at(order[j], k)->0,
        )
}

#[verifier::opaque]
pub open spec fn all_inside(world: World, order: Seq<TilePos>) -> bool {
    forall|i: int| 0 <= i < order.len() ==> inside(world, #[trigger] order[i])
}

/// The flood fill's state: cells in visit order with the cell each was
/// reached from, the first `processed` of them done.
pub open spec fn fill_state(
    world: World,
    order: Seq<TilePos>,
    parents: Seq<(int, int)>,
    processed: int,
    seed: TilePos,
) -> bool {
    &&& order.len() >= 1
    &&& order[0] == seed
    &&& distinct(order)
    &&& all_inside(world, order)
    &&& grown_within(world, order, parents, processed)
    &&& closed_within(world, order, processed)
    &&& first_links(order, parents)
}

proof fn lemma_push_cell(
    world: World,
    pre: Seq<TilePos>,
    parents: Seq<(int, int)>,
    processed: int,
    k: int,
    n: TilePos,
    seed: TilePos,
)
    requires
        0 <= processed < pre.len(),
        pre.len() >= 1,
        pre[0] == seed,
        distinct(pre),
        all_inside(world, pre),
        grown_within(world, pre, parents, processed + 1),
        closed_within(world, pre, processed),
        forall|q: int|
            0 <= q < k && passable_opt(world, #[trigger] neighbour_at(pre[processed], q)) ==> pre.contains(
                neighbour_at(pre[processed], q)->0,
            ),
        0 <= k < 4,
        neighbour_at(pre[processed], k) == Some(n),
        passable(world, n),
        inside(world, n),
        !pre.contains(n),
        first_links(pre, parents),
        forall|i: int| 1 <= i < pre.len() ==> reach_before(#[trigger] parents[i], (processed, k)),
    ensures
        ({
            let post = pre.push(n);
            let post_parents = parents.push((processed, k));
            &&& first_links(post, post_parents)
            &&& post[0] == seed
            &&& distinct(post)
            &&& all_inside(world, post)
            &&& grown_within(world, post, post_parents, processed + 1)
            &&& closed_within(world, post, processed)
            &&& forall|q: int|
                0 <= q <= k && passable_opt(world, #[trigger] neighbour_at(post[processed], q)) ==> post.contains(
                    neighbour_at(post[processed], q)->0,
                )
        }),
{
    reveal(distinct);
    reveal(all_inside);
    reveal(grown_within);
    reveal(closed_within);
    reveal(first_links);
    let post = pre.push(n);
    let post_parents = parents.push((processed, k));
    assert forall|i: int| 1 <= i < post.len() implies #[trigger] first_reach(
        post,
        i,
        post_parents[i].0,
        post_parents[i].1,
    ) by {
        if i < pre.len() {
            assert(post_parents[i] == parents[i]);
            assert(first_reach(pre, i, parents[i].0, parents[i].1));
            assert forall|j2: int, k2: int|
                0 <= j2 && 0 <= k2 < 4 && reach_before((j2, k2), (post_parents[i].0, post_parents[i].1)) implies #[trigger] neighbour_at(
                post[j2],
                k2,
            ) != Some(post[i]) by {
                assert(stem(world, pre, i, parents[i].0, parents[i].1));
                assert(post[j2] == pre[j2]);
                assert(neighbour_at(pre[j2], k2) != Some(pre[i]));
            }
        } else {
            assert forall|j2: int, k2: int|
                0 <= j2 && 0 <= k2 < 4 && reach_before((j2, k2), (processed, k)) implies #[trigger] neighbour_at(
                post[j2],
                k2,
            ) != Some(post[i]) by {
                assert(post[j2] == pre[j2]);
                assert(post[i] == n);
                if neighbour_at(pre[j2], k2) == Some(n) {
                    assert(passable_opt(world, neighbour_at(pre[j2], k2)));
                    if j2 < processed {
                        assert(pre.contains(neighbour_at(pre[j2], k2)->0));
                    } else {
                        assert(pre.contains(neighbour_at(pre[processed], k2)->0));
                    }
                }
            }
        }
    }
    assert forall|a: int, b: int| 1 <= a < b < post.len() implies reach_before(
        #[trigger] post_parents[a],
        #[trigger] post_parents[b],
    ) by {
        assert(post_parents[a] == parents[a]);
        if b < pre.len() {
            assert(post_parents[b] == parents[b]);
        }
    }
    assert forall|i: int| 0 <= i < post.len() implies inside(world, #[trigger] post[i]) by {
        if i < pre.len() {
            assert(post[i] == pre[i]);
        }
    }
    assert forall|a: int, b: int| 0 <= a < b < post.len() implies #[trigger] post[a] != #[trigger] post[b] by {
        assert(post[a] == pre[a]);
        if b == pre.len() {
            assert(pre.contains(pre[a]));
        } else {
            assert(post[b] == pre[b]);
        }
    }
    assert forall|i: int| 1 <= i < post.len() implies #[trigger] post_parents[i].0 < processed + 1 && stem(
        world,
        post,
        i,
        post_parents[i].0,
        post_parents[i].1,
    ) by {
        if i < pre.len() {
            assert(post_parents[i] == parents[i]);
            assert(parents[i].0 < processed + 1 && stem(world, pre, i, parents[i].0, parents[i].1));
            assert(post[parents[i].0] == pre[parents[i].0]);
            assert(post[i] == pre[i]);
        } else {
            assert(post[processed] == pre[processed]);
        }
    }
    assert forall|j: int, q: int|
        0 <= j < processed && 0 <= q < 4 && passable_opt(world, #[trigger] neighbour_at(post[j], q)) implies post.contains(
            neighbour_at(post[j], q)->0,
        ) by {
        assert(post[j] == pre[j]);
        let w = choose|w: int| 0 <= w < pre.len() && pre[w] == neighbour_at(pre[j], q)->0;
        assert(post[w] == pre[w]);
    }
    assert forall|q: int|
        0 <= q <= k && passable_opt(world, #[trigger] neighbour_at(post[processed], q)) implies post.contains(
            neighbour_at(post[processed], q)->0,
        ) by {
        assert(post[processed] == pre[processed]);
        if q < k {
            let w = choose|w: int| 0 <= w < pre.len() && pre[w] == neighbour_at(pre[processed], q)->0;
            assert(post[w] == pre[w]);
        } else {
            assert(post[post.len() - 1] == n);
        }
    }
}

proof fn lemma_grown_extend(world: World, order: Seq<TilePos>, parents: Seq<(int, int)>, processed: int)
    requires
        grown_within(world, order, parents, processed),
    ensures
        grown_within(world, order, parents, processed + 1),
{
    reveal(grown_within);
}

proof fn lemma_closed_extend(world: World, order: Seq<TilePos>, processed: int)
    requires
        0 <= processed < order.len(),
        closed_within(world, order, processed),
        forall|q: int|
            0 <= q < 4 && passable_opt(world, #[trigger] neighbour_at(order[processed], q)) ==> order.contains(
                neighbour_at(order[processed], q)->0,
            ),
    ensures
        closed_within(world, order, processed + 1),
{
    reveal(closed_within);
}

/// Visits the neighbours of cell `processed`, listing each passable one not
/// yet listed, and reports whether the cell has an open edge, a light block
/// beside it and a room boundary beside it.
fn visit_neighbours(
    world: &World,
    order: &mut Vec<TilePos>,
    processed: usize,
    Ghost(seed): Ghost<TilePos>,
    Ghost(parents): Ghost<Seq<(int, int)>>,
) -> (found: (bool, bool, bool, Ghost<Seq<(int, int)>>))
    requires
        world.wf(),
        processed < old(order)@.len(),
        fill_state(*world, old(order)@, parents, processed as int, seed),
    ensures
        fill_state(*world, final(order)@, found.3@, processed + 1, seed),
        final(order)@.len() >= old(order)@.len(),
        final(order)@.subrange(0, old(order)@.len() as int) == old(order)@,
        found.0 == open_edge(*world, old(order)@[processed as int]),
        found.1 == lit_by(*world, old(order)@[processed as int]),
        found.2 == door_next_to(*world, old(order)@[processed as int]),
{
    let position = order[processed];
    let cells = neighbours(position);
    let mut edge = false;
    let mut lit = false;
    let mut beside_door = false;
    let mut k: usize = 0;
    let ghost mut links = parents;
    proof {
        lemma_grown_extend(*world, order@, parents, processed as int);
        reveal(all_inside);
        reveal(grown_within);
        assert forall|i: int| 1 <= i < order@.len() implies reach_before(#[trigger] parents[i], (processed as int, 0)) by {
            assert(parents[i].0 < processed);
        }
    }
    while k < 4
        invariant
            world.wf(),
            k <= 4,
            processed < old(order)@.len(),
            position == old(order)@[processed as int],
            order@.len() >= old(order)@.len(),
            order@.subrange(0, old(order)@.len() as int) == old(order)@,
            order@[0] == seed,
            distinct(order@),
            all_inside(*world, order@),
            grown_within(*world, order@, links, processed + 1),
            closed_within(*world, order@, processed as int),
            first_links(order@, links),
            forall|i: int| 1 <= i < order@.len() ==> reach_before(#[trigger] links[i], (processed as int, k as int)),
            links.len() == order@.len(),
            forall|q: int|
                0 <= q < k && passable_opt(*world, #[trigger] neighbour_at(order@[processed as int], q)) ==> order@.contains(
                    neighbour_at(order@[processed as int], q)->0,
                ),
            cells[0] == neighbour_at(position, 0),
            cells[1] == neighbour_at(position, 1),
            cells[2] == neighbour_at(position, 2),
            cells[3] == neighbour_at(position, 3),
            edge == exists|q: int| 0 <= q < k && !inside_opt(*world, #[trigger] neighbour_at(position, q)),
            lit == exists|q: int| 0 <= q < k && light_opt(*world, #[trigger] neighbour_at(position, q)),
            beside_door == exists|q: int| 0 <= q < k && door_opt(*world, #[trigger] neighbour_at(position, q)),
        decreases 4 - k,
    {
        assert(order@[processed as int] == old(order)@[processed as int]) by {
            assert(order@.subrange(0, old(order)@.len() as int)[processed as int] == order@[processed as int]);
        }
        assert(cells[k as int] == neighbour_at(position, k as int));
        assert forall|i: int| 1 <= i < order@.len() implies reach_before(
            #[trigger] links[i],
            (processed as int, k + 1),
        ) by {
            assert(reach_before(links[i], (processed as int, k as int)));
        }
        match cells[k] {
            None => {
                edge = true;
            },
            Some(n) => {
                if n.x >= world.width() || n.y >= world.height() {
                    edge = true;
                } else {
                    let tile = world.foreground_tile(n.x, n.y);
                    if tile != EMPTY_TILE {
                        if tile == LIGHT_TILE {
                            lit = true;
                        }
                    } else {
                        let boundary = match world.object_at(n) {
                            Some(o) => o.object_type == FurnitureObject::DOOR,
                            None => false,
                        };
                        if boundary {
                            beside_door = true;
                        } else if !contains_cell(order, n) {
                            let ghost links_before = links;
                            proof {
                                lemma_push_cell(*world, order@, links, processed as int, k as int, n, seed);
                                links = links.push((processed as int, k as int));
                            }
                            let ghost pre = order@;
                            order.push(n);
                            proof {
                                assert forall|i: int| 1 <= i < order@.len() implies reach_before(
                                    #[trigger] links[i],
                                    (processed as int, k + 1),
                                ) by {
                                    if i < pre.len() {
                                        assert(links[i] == links_before[i]);
                                        assert(reach_before(links_before[i], (processed as int, k as int)));
                                    } else {
                                        assert(links[i] == (processed as int, k as int));
                                    }
                                }
                                assert(order@.subrange(0, old(order)@.len() as int) =~= pre.subrange(
                                    0,
                                    old(order)@.len() as int,
                                ));
                            }
                        }
                    }
                }
            },
        }
        k = k + 1;
    }
    assert(order@[processed as int] == old(order)@[processed as int]) by {
        assert(order@.subrange(0, old(order)@.len() as int)[processed as int] == order@[processed as int]);
    }
    proof {
        lemma_closed_extend(*world, order@, processed as int);
    }
    (edge, lit, beside_door, Ghost(links))
}

/// The finished flood fill's cells grew from the seed.
proof fn lemma_fill_grown(world: World, order: Seq<TilePos>, parents: Seq<(int, int)>, processed: int, seed: TilePos)
    requires
        fill_state(world, order, parents, processed, seed),
        1 <= processed <= order.len(),
    ensures
        grown_from(world, order.take(processed), seed),
{
    reveal(grown_within);
    let cells = order.take(processed);
    assert(cells[0] == order[0]);
    assert forall|i: int| 1 <= i < cells.len() implies #[trigger] has_parent(world, cells, i) by {
        let j = parents[i].0;
        let k = parents[i].1;
        assert(stem(world, order, i, j, k));
        assert(cells[j] == order[j]);
        assert(cells[i] == order[i]);
        assert(stem(world, cells, i, j, k));
    }
}

/// The cells a flood fill has processed are the first ones of a
/// breadth-first fill.
proof fn lemma_fill_breadth_first(
    world: World,
    order: Seq<TilePos>,
    parents: Seq<(int, int)>,
    processed: int,
    seed: TilePos,
)
    requires
        fill_state(world, order, parents, processed, seed),
        1 <= processed <= order.len(),
    ensures
        bfs_links(world, order.take(processed), parents.take(processed)),
{
    reveal(grown_within);
    reveal(closed_within);
    reveal(first_links);
    reveal(bfs_links);
    let cells = order.take(processed);
    let links = parents.take(processed);
    assert forall|i: int| 1 <= i < cells.len() implies #[trigger] stem(world, cells, i, links[i].0, links[i].1) by {
        assert(links[i] == parents[i]);
        assert(stem(world, order, i, parents[i].0, parents[i].1));
        assert(cells[parents[i].0] == order[parents[i].0]);
        assert(cells[i] == order[i]);
    }
    assert forall|i: int| 1 <= i < cells.len() implies #[trigger] first_reach(cells, i, links[i].0, links[i].1) by {
        assert(links[i] == parents[i]);
        assert(first_reach(order, i, parents[i].0, parents[i].1));
        assert(stem(world, order, i, parents[i].0, parents[i].1));
        assert forall|j2: int, k2: int|
            0 <= j2 && 0 <= k2 < 4 && reach_before((j2, k2), (links[i].0, links[i].1)) implies #[trigger] neighbour_at(
            cells[j2],
            k2,
        ) != Some(cells[i]) by {
            assert(cells[j2] == order[j2]);
            assert(cells[i] == order[i]);
            assert(neighbour_at(order[j2], k2) != Some(order[i]));
        }
    }
    assert forall|a: int, b: int| 1 <= a < b < cells.len() implies reach_before(#[trigger] links[a], #[trigger] links[b]) by {
        assert(links[a] == parents[a]);
        assert(links[b] == parents[b]);
        assert(reach_before(parents[a], parents[b]));
    }
    assert(first_links(cells, links));
    if cells.len() >= 2 {
        let last = cells.len() - 1;
        assert forall|j: int, k: int|
            0 <= j < cells.len() && 0 <= k < 4 && reach_before((j, k), links[last]) && passable_opt(
                world,
                #[trigger] neighbour_at(cells[j], k),
            ) implies cells.contains(neighbour_at(cells[j], k)->0) by {
            assert(cells[j] == order[j]);
            assert(passable_opt(world, neighbour_at(order[j], k)));
            assert(order.contains(neighbour_at(order[j], k)->0));
            let w = choose|w: int| 0 <= w < order.len() && order[w] == neighbour_at(order[j], k)->0;
            assert(neighbour_at(order[j], k) == Some(order[w]));
            if w >= 1 && w >= last {
                assert(first_reach(order, w, parents[w].0, parents[w].1));
                assert(!reach_before((j, k), parents[w]));
                assert(links[last] == parents[last]);
                if w > last {
                    assert(reach_before(parents[last], parents[w]));
                }
                assert(false);
            }
            assert(cells[w] == order[w]);
        }
    }
}

proof fn lemma_fill_distinct(order: Seq<TilePos>, processed: int)
    requires
        distinct(order),
        0 <= processed <= order.len(),
    ensures
        distinct(order.take(processed)),
{
    reveal(distinct);
    let cells = order.take(processed);
    assert forall|a: int, b: int| 0 <= a < b < cells.len() implies #[trigger] cells[a] != #[trigger] cells[b] by {
        assert(cells[a] == order[a]);
        assert(cells[b] == order[b]);
    }
}

/// The finished flood fill is closed exactly when it ran to its end.
proof fn lemma_fill_closed(
    world: World,
    order: Seq<TilePos>,
    parents: Seq<(int, int)>,
    processed: int,
    seed: TilePos,
    capped: bool,
)
    requires
        fill_state(world, order, parents, processed, seed),
        1 <= processed <= order.len(),
        capped ==> processed < order.len(),
        !capped ==> processed == order.len(),
    ensures
        closed_room(world, order.take(processed)) == !capped,
{
    let cells = order.take(processed);
    if capped {
        reveal(grown_within);
        reveal(distinct);
        let j = parents[processed].0;
        let k = parents[processed].1;
        assert(stem(world, order, processed, j, k));
        assert(cells[j] == order[j]);
        assert(passable_opt(world, neighbour_at(cells[j], k)));
        if cells.contains(order[processed]) {
            let w = choose|w: int| 0 <= w < cells.len() && cells[w] == order[processed];
            assert(order[w] == order[processed]);
        }
        assert(!closed_room(world, cells));
    } else {
        reveal(closed_within);
        assert(cells =~= order);
    }
}

/// Flood-fills the room around a placed object through open tiles, never
/// stepping through room boundaries, and checks what the room offers.
#[verifier::rlimit(40)]
pub fn assess_room_from_anchor(world: &World, anchor: ObjectId) -> (room: Option<RoomAssessment>)
    requires
        world.wf(),
    ensures
        room is Some == world.object_spec(anchor) is Some,
        room matches Some(r) ==> r.spec_terminal() == anchor && assessed_from(
            *world,
            world.object_spec(anchor)->0.anchor,
            r,
        ),
{
    let object = match world.object(anchor) {
        Some(object) => object,
        None => return None,
    };
    let seed = object.anchor;
    proof {
        world.lemma_wf();
        let i = crate::world::index_of(world.spec_objects(), anchor)->0;
        assert(crate::world::in_bounds(world.spec_objects()[i], world.spec_width(), world.spec_height()));
    }
    let mut order: Vec<TilePos> = Vec::new();
    order.push(seed);
    let ghost mut parents: Seq<(int, int)> = seq![(0int, 0int)];
    proof {
        reveal(distinct);
        reveal(all_inside);
        reveal(grown_within);
        reveal(closed_within);
        reveal(first_links);
    }
    let mut processed: usize = 0;
    let mut enclosed = true;
    let mut capped = false;
    let mut background_walls = true;
    let mut light = false;
    let mut bed = false;
    let mut door = false;
    while processed < order.len()
        invariant_except_break
            processed <= order@.len(),
        invariant
            world.wf(),
            fill_state(*world, order@, parents, processed as int, seed),
            processed <= MAX_HOUSE_INTERIOR_CELLS,
            capped ==> processed == MAX_HOUSE_INTERIOR_CELLS && processed < order@.len(),
            enclosed == (!capped && forall|i: int| 0 <= i < processed ==> !open_edge(*world, #[trigger] order@[i])),
            background_walls == forall|i: int|
                0 <= i < processed ==> world.back_tile(#[trigger] order@[i].x, order@[i].y) != EMPTY_TILE,
            light == exists|i: int| 0 <= i < processed && lit_by(*world, #[trigger] order@[i]),
            bed == exists|i: int| 0 <= i < processed && bed_at(*world, #[trigger] order@[i]),
            door == exists|i: int| 0 <= i < processed && door_next_to(*world, #[trigger] order@[i]),
        ensures
            capped || processed == order@.len(),
            processed <= order@.len(),
        decreases MAX_HOUSE_INTERIOR_CELLS + 1 - processed,
    {
        if processed >= MAX_HOUSE_INTERIOR_CELLS {
            enclosed = false;
            capped = true;
            break;
        }
        let position = order[processed];
        proof {
            reveal(all_inside);
            assert(inside(*world, order@[processed as int]));
        }
        let is_bed = match world.object_at(position) {
            Some(o) => o.object_type == FurnitureObject::BED,
            None => false,
        };
        let walled = world.background_tile(position.x, position.y) != EMPTY_TILE;
        let ghost before = order@;
        let (edge, lit, beside_door, Ghost(links)) = visit_neighbours(world, &mut order, processed, Ghost(seed), Ghost(parents));
        proof {
            parents = links;
            assert forall|i: int| 0 <= i <= processed implies #[trigger] order@[i] == before[i] by {
                assert(order@.subrange(0, before.len() as int)[i] == order@[i]);
            }
        }
        enclosed = enclosed && !edge;
        background_walls = background_walls && walled;
        light = light || lit;
        bed = bed || is_bed;
        door = door || beside_door;
        processed = processed + 1;
    }
    proof {
        lemma_fill_grown(*world, order@, parents, processed as int, seed);
        lemma_fill_breadth_first(*world, order@, parents, processed as int, seed);
        lemma_fill_distinct(order@, processed as int);
        lemma_fill_closed(*world, order@, parents, processed as int, seed, capped);
    }
    let ghost full = order@;
    let mut interior = order;
    interior.truncate(processed);
    proof {
        assert(interior@ =~= order@.take(processed as int));
        reveal(all_inside);
    }
    let mut standing: Vec<TilePos> = Vec::new();
    let mut index: usize = 0;
    while index < interior.len()
        invariant
            world.wf(),
            index <= interior@.len(),
            forall|i: int| 0 <= i < interior@.len() ==> inside(*world, #[trigger] interior@[i]),
            standing@ == interior@.take(index as int).filter(standing_in(*world)),
        decreases interior@.len() - index,
    {
        proof {
            reveal(Seq::filter);
            assert(interior@.take(index + 1).drop_last() =~= interior@.take(index as int));
        }
        if standing_cell(world, interior[index]) {
            standing.push(interior[index]);
        }
        index = index + 1;
    }
    proof {
        assert(interior@.take(index as int) =~= interior@);
    }
    let requirements = HouseRequirements {
        enclosed,
        background_walls,
        door,
        light,
        bed,
        enough_space: interior.len() >= MIN_HOUSE_INTERIOR_CELLS && standing.len() > 0,
    };
    let room = RoomAssessment { terminal: anchor, requirements, interior_cells: interior, standing_cells: standing };
    proof {
        let cells = room.spec_interior();
        assert(cells =~= full.take(processed as int));
        assert(bfs_links(*world, cells, parents.take(processed as int)));
        assert forall|i: int| 0 <= i < cells.len() implies #[trigger] cells[i] == full[i] by {}
        if forall|i: int| 0 <= i < processed ==> !open_edge(*world, #[trigger] full[i]) {
            assert forall|i: int| 0 <= i < cells.len() implies !open_edge(*world, #[trigger] cells[i]) by {
                assert(!open_edge(*world, full[i]));
            }
        } else {
            let i = choose|i: int| 0 <= i < processed && open_edge(*world, #[trigger] full[i]);
            assert(open_edge(*world, cells[i]));
        }
        assert(enclosed == ((forall|i: int| 0 <= i < cells.len() ==> !open_edge(*world, #[trigger] cells[i]))
            && closed_room(*world, cells)));
        if forall|i: int| 0 <= i < processed ==> world.back_tile(#[trigger] full[i].x, full[i].y) != EMPTY_TILE {
            assert forall|i: int| 0 <= i < cells.len() implies world.back_tile(#[trigger] cells[i].x, cells[i].y) != EMPTY_TILE by {
                assert(world.back_tile(full[i].x, full[i].y) != EMPTY_TILE);
            }
        } else {
            let i = choose|i: int| 0 <= i < processed && world.back_tile(#[trigger] full[i].x, full[i].y) == EMPTY_TILE;
            assert(world.back_tile(cells[i].x, cells[i].y) == EMPTY_TILE);
        }
        assert(background_walls == forall|i: int|
            0 <= i < cells.len() ==> world.back_tile(#[trigger] cells[i].x, cells[i].y) != EMPTY_TILE);
        assert(light == exists|i: int| 0 <= i < cells.len() && lit_by(*world, #[trigger] cells[i])) by {
            if light {
                let i = choose|i: int| 0 <= i < processed && lit_by(*world, #[trigger] full[i]);
                assert(lit_by(*world, cells[i]));
            }
        }
        assert(bed == exists|i: int| 0 <= i < cells.len() && bed_at(*world, #[trigger] cells[i])) by {
            if bed {
                let i = choose|i: int| 0 <= i < processed && bed_at(*world, #[trigger] full[i]);
                assert(bed_at(*world, cells[i]));
            }
        }
        assert(door == exists|i: int| 0 <= i < cells.len() && door_next_to(*world, #[trigger] cells[i])) by {
            if door {
                let i = choose|i: int| 0 <= i < processed && door_next_to(*world, #[trigger] full[i]);
                assert(door_next_to(*world, cells[i]));
            }
        }
        assert(requirements == requirements_of(*world, cells, room.spec_standing()));
    }
    Some(room)
}

/// The room of a procurement terminal.
pub fn assess_room(world: &World, terminal: ObjectId) -> (room: Option<RoomAssessment>)
    requires
        world.wf(),
    ensures
        room is Some == (world.object_spec(terminal) matches Some(o) && o.object_type
            == FurnitureObject::PROCUREMENT_TERMINAL),
        room matches Some(r) ==> r.spec_terminal() == terminal && assessed_from(
            *world,
            world.object_spec(terminal)->0.anchor,
            r,
        ),
{
    match world.object(terminal) {
        Some(object) => {
            if object.object_type != FurnitureObject::PROCUREMENT_TERMINAL {
                return None;
            }
        },
        None => return None,
    }
    assess_room_from_anchor(world, terminal)
}

/// The requirements of a bed's room, judged as a specialist home is.
pub fn assess_bed(world: &World, bed: ObjectId) -> (requirements: Option<HouseRequirements>)
    requires
        world.wf(),
    ensures
        requirements is Some == (world.object_spec(bed) matches Some(o) && o.object_type == FurnitureObject::BED),
        requirements matches Some(r) ==> exists|room: RoomAssessment|
            #[trigger] assessed_from(*world, world.object_spec(bed)->0.anchor, room) && room.spec_requirements() == r,
        requirements matches Some(r) ==> forall|room: RoomAssessment|
            #[trigger] assessed_from(*world, world.object_spec(bed)->0.anchor, room) && room.spec_interior().len()
                < MAX_HOUSE_INTERIOR_CELLS ==> room.spec_requirements() == r,
{
    match world.object(bed) {
        Some(object) => {
            if object.object_type != FurnitureObject::BED {
                return None;
            }
        },
        None => return None,
    }
    match assess_room_from_anchor(world, bed) {
        Some(room) => {
            proof {
                let anchor = world.object_spec(bed)->0.anchor;
                assert forall|other: RoomAssessment|
                    #[trigger] assessed_from(*world, anchor, other) && other.spec_interior().len()
                        < MAX_HOUSE_INTERIOR_CELLS implies other.spec_requirements() == room.spec_requirements() by {
                    law_rooms_agree(*world, anchor, other, room);
                }
            }
            Some(room.requirements())
        },
        None => None,
    }
}

/// Recruits a known specialist into a valid home around a procurement
/// terminal, standing at the given position. Checks, in order: the
/// specialist is known, not yet recruited, the terminal has a room, and the
/// room is a valid home.
pub fn recruit_specialist(
    world: &mut World,
    terminal: ObjectId,
    id: SpecialistId,
    position_bits: [u32; 2],
) -> (result: Result<(), RecruitSpecialistError>)
    requires
        old(world).wf(),
    ensures
        final(world).wf(),
        bonus_table(id.spec_raw()) is None ==> result == Err::<(), RecruitSpecialistError>(
            RecruitSpecialistError::UnknownSpecialist,
        ),
        bonus_table(id.spec_raw()) is Some && specialist_of(old(world).spec_specialists(), id) is Some ==> result
            == Err::<(), RecruitSpecialistError>(RecruitSpecialistError::AlreadyRecruited),
        bonus_table(id.spec_raw()) is Some && specialist_of(old(world).spec_specialists(), id) is None && !(old(
            world,
        ).object_spec(terminal) matches Some(o) && o.object_type == FurnitureObject::PROCUREMENT_TERMINAL) ==> result
            == Err::<(), RecruitSpecialistError>(RecruitSpecialistError::InvalidTerminal),
        result == Err::<(), RecruitSpecialistError>(RecruitSpecialistError::InvalidTerminal) ==> !(old(
            world,
        ).object_spec(terminal) matches Some(o) && o.object_type == FurnitureObject::PROCUREMENT_TERMINAL),
        bonus_table(id.spec_raw()) is Some && specialist_of(old(world).spec_specialists(), id) is None && (old(
            world,
        ).object_spec(terminal) matches Some(o) && o.object_type == FurnitureObject::PROCUREMENT_TERMINAL) && (
        forall|room: RoomAssessment|
            #[trigger] assessed_from(*old(world), old(world).object_spec(terminal)->0.anchor, room)
                ==> room.spec_requirements().spec_is_valid()) ==> result is Ok,
        bonus_table(id.spec_raw()) is Some && specialist_of(old(world).spec_specialists(), id) is None && (old(
            world,
        ).object_spec(terminal) matches Some(o) && o.object_type == FurnitureObject::PROCUREMENT_TERMINAL) && (
        forall|room: RoomAssessment|
            #[trigger] assessed_from(*old(world), old(world).object_spec(terminal)->0.anchor, room)
                ==> !room.spec_requirements().spec_is_valid()) ==> result == Err::<(), RecruitSpecialistError>(
            RecruitSpecialistError::UnsuitableHouse,
        ),
        result is Err ==> final(world).spec_specialists() == old(world).spec_specialists(),
        final(world).spec_background() == old(world).spec_background(),
        final(world).spec_seed() == old(world).spec_seed(),
        final(world).spec_next_object() == old(world).spec_next_object(),
        result is Ok ==> final(world).spec_specialists() == old(world).spec_specialists().push(
            SpecialistRecord::made(id, terminal, position_bits, 100),
        ) && exists|room: RoomAssessment|
            #[trigger] assessed_from(*old(world), old(world).object_spec(terminal)->0.anchor, room)
                && room.spec_requirements().spec_is_valid(),
        result == Err::<(), RecruitSpecialistError>(RecruitSpecialistError::UnsuitableHouse) ==> exists|room: RoomAssessment|
            #[trigger] assessed_from(*old(world), old(world).object_spec(terminal)->0.anchor, room)
                && !room.spec_requirements().spec_is_valid(),
        final(world).spec_objects() == old(world).spec_objects(),
        final(world).spec_containers() == old(world).spec_containers(),
        final(world).spec_charges() == old(world).spec_charges(),
        final(world).spec_foreground() == old(world).spec_foreground(),
        final(world).item_transport_revision_spec() == old(world).item_transport_revision_spec(),
{
    if specialist_definition(id).is_none() {
        return Err(RecruitSpecialistError::UnknownSpecialist);
    }
    if world.specialist(id).is_some() {
        return Err(RecruitSpecialistError::AlreadyRecruited);
    }
    let room = match assess_room(world, terminal) {
        Some(room) => room,
        None => return Err(RecruitSpecialistError::InvalidTerminal),
    };
    if !room.is_valid() {
        return Err(RecruitSpecialistError::UnsuitableHouse);
    }
    let record = SpecialistRecord::new(id, terminal, position_bits);
    world.push_specialist(record);
    Ok(())
}

} // verus!
