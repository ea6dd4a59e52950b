use vstd::prelude::*;
use crate::terrain::{BiomeId, ChunkPos, TilePos};

verus! {

/// Identifier of a lifeform kind.
#[derive(Clone, Copy, Debug, PartialEq, Eq, Hash, PartialOrd, Ord, Structural)]
pub struct LifeformId(u16);

impl LifeformId {
    pub closed spec fn spec_raw(self) -> u16 {
        self.0
    }

    pub fn new(value: u16) -> (id: Self)
        ensures
            id.spec_raw() == value,
    {
        LifeformId(value)
    }

    pub fn raw(self) -> (value: u16)
        ensures
            value == self.spec_raw(),
    {
        self.0
    }

    #[allow(non_snake_case)]
    pub fn WALKER() -> (id: Self)
        ensures
            id.spec_raw() == 1,
    {
        LifeformId(1)
    }

    #[allow(non_snake_case)]
    pub fn GLOWGNAT() -> (id: Self)
        ensures
            id.spec_raw() == 2,
    {
        LifeformId(2)
    }
}

/// An inclusive rectangle of chunks.
#[derive(Clone, Copy, Debug, PartialEq, Eq, Structural)]
pub struct ChunkRect {
    pub minimum: ChunkPos,
    pub maximum: ChunkPos,
}

impl ChunkRect {
    pub open spec fn wf(self) -> bool {
        self.minimum.x <= self.maximum.x && self.minimum.y <= self.maximum.y
    }

    pub open spec fn spec_width(self) -> nat {
        (self.maximum.x - self.minimum.x + 1) as nat
    }

    pub open spec fn spec_height(self) -> nat {
        (self.maximum.y - self.minimum.y + 1) as nat
    }

    pub fn contains(self, chunk: ChunkPos) -> (inside: bool)
        ensures
            inside == (self.minimum.x <= chunk.x <= self.maximum.x && self.minimum.y <= chunk.y <= self.maximum.y),
    {
        self.minimum.x <= chunk.x && chunk.x <= self.maximum.x && self.minimum.y <= chunk.y && chunk.y
            <= self.maximum.y
    }

    /// The number of chunks in the rectangle.
    pub fn len(self) -> (count: usize)
        requires
            self.wf(),
            self.spec_width() * self.spec_height() <= usize::MAX,
        ensures
            count == self.spec_width() * self.spec_height(),
    {
        let width = (self.maximum.x - self.minimum.x) as u64 + 1;
        let height = (self.maximum.y - self.minimum.y) as u64 + 1;
        assert(width * height <= u64::MAX) by (nonlinear_arith)
            requires
                width <= 0x1_0000_0000,
                height <= 0x1_0000_0000,
                width >= 1,
                height >= 1,
                width * height <= usize::MAX,
        ;
        (width * height) as usize
    }

    /// The chunk at a row-major index.
    pub fn at(self, index: usize) -> (chunk: ChunkPos)
        requires
            self.wf(),
            index < self.spec_width() * self.spec_height(),
        ensures
            chunk.x == self.minimum.x + (index as nat) % self.spec_width(),
            chunk.y == self.minimum.y + (index as nat) / self.spec_width(),
            self.minimum.x <= chunk.x <= self.maximum.x,
            self.minimum.y <= chunk.y <= self.maximum.y,
    {
        let width = (self.maximum.x - self.minimum.x) as u64 + 1;
        let height = (self.maximum.y - self.minimum.y) as u64 + 1;
        let index = index as u64;
        assert(index % width < width) by (nonlinear_arith)
            requires
                width > 0,
        ;
        assert(index / width < height) by (nonlinear_arith)
            requires
                width > 0,
                index < width * height,
        ;
        ChunkPos {
            x: self.minimum.x + (index % width) as u32,
            y: self.minimum.y + (index / width) as u32,
        }
    }
}

/// Adds elapsed time to an accumulator. With a zero interval every call is
/// due and reports the elapsed time. Otherwise a call is due once the
/// accumulator reaches the interval; it then keeps only the remainder and
/// reports one interval.
pub fn interval_elapsed(accumulator: &mut u64, elapsed: u64, interval: u64) -> (due: Option<u64>)
    ensures
        interval == 0 ==> due == Some(elapsed) && *final(accumulator) == *old(accumulator),
        interval > 0 ==> {
            let total: int = if *old(accumulator) + elapsed > u64::MAX {
                u64::MAX as int
            } else {
                *old(accumulator) + elapsed
            };
            &&& total < interval ==> due is None && *final(accumulator) == total
            &&& total >= interval ==> due == Some(interval) && *final(accumulator) == total % (interval as int)
        },
{
    if interval == 0 {
        return Some(elapsed);
    }
    *accumulator = accumulator.saturating_add(elapsed);
    if *accumulator < interval {
        return None;
    }
    *accumulator = *accumulator % interval;
    Some(interval)
}

/// How many lifeforms the attention allows: one per started share of
/// attention, at most the hard cap; none without attention or cap.
pub open spec fn population_limit(attention: u32, attention_per_lifeform: u32, hard_cap: usize) -> int {
    if attention == 0 || hard_cap == 0 {
        0
    } else {
        let unit: int = if attention_per_lifeform == 0 { 1 } else { attention_per_lifeform as int };
        let padded: int = if attention + unit - 1 > u32::MAX { u32::MAX as int } else { attention + unit - 1 };
        let limit = padded / unit;
        if limit < hard_cap {
            limit
        } else {
            hard_cap as int
        }
    }
}

pub fn attention_population_limit(attention: u32, attention_per_lifeform: u32, hard_cap: usize) -> (limit: usize)
    ensures
        limit == population_limit(attention, attention_per_lifeform, hard_cap),
{
    if attention == 0 || hard_cap == 0 {
        return 0;
    }
    let unit: u32 = if attention_per_lifeform == 0 { 1 } else { attention_per_lifeform };
    let limit: u32 = attention.saturating_add(unit - 1) / unit;
    if (limit as u64) < hard_cap as u64 {
        limit as usize
    } else {
        hard_cap
    }
}

/// Whether the rectangle from `minimum` to `maximum` shares a chunk with
/// another.
pub fn chunk_rects_intersect(minimum: ChunkPos, maximum: ChunkPos, other: ChunkRect) -> (overlap: bool)
    ensures
        overlap == (minimum.x <= other.maximum.x && maximum.x >= other.minimum.x && minimum.y <= other.maximum.y
            && maximum.y >= other.minimum.y),
{
    minimum.x <= other.maximum.x && maximum.x >= other.minimum.x && minimum.y <= other.maximum.y && maximum.y
        >= other.minimum.y
}

pub open spec fn axis_gap(value: u32, minimum: u32, maximum: u32) -> u32 {
    let below: u32 = if minimum > value { (minimum - value) as u32 } else { 0 };
    let above: u32 = if value > maximum { (value - maximum) as u32 } else { 0 };
    if below >= above {
        below
    } else {
        above
    }
}

/// The chessboard distance from a chunk to a rectangle; zero inside it.
pub fn chunk_distance_from_rect(chunk: ChunkPos, minimum: ChunkPos, maximum: ChunkPos) -> (distance: u32)
    ensures
        distance == (if axis_gap(chunk.x, minimum.x, maximum.x) >= axis_gap(chunk.y, minimum.y, maximum.y) {
            axis_gap(chunk.x, minimum.x, maximum.x)
        } else {
            axis_gap(chunk.y, minimum.y, maximum.y)
        }),
{
    let below_x = minimum.x.saturating_sub(chunk.x);
    let above_x = chunk.x.saturating_sub(maximum.x);
    let x = if below_x >= above_x { below_x } else { above_x };
    let below_y = minimum.y.saturating_sub(chunk.y);
    let above_y = chunk.y.saturating_sub(maximum.y);
    let y = if below_y >= above_y { below_y } else { above_y };
    if x >= y {
        x
    } else {
        y
    }
}

/// The deterministic spawn hash: the inputs scrambled with odd constants,
/// then a finalising mix of shifts and multiplications.
pub open spec fn spawn_hash_spec(seed: u64, sequence: u64, chunk: ChunkPos, attempt: u64) -> u64 {
    let mixed = seed ^ sequence.wrapping_mul(0x9E37_79B9_7F4A_7C15) ^ (chunk.x as u64).wrapping_mul(
        0xBF58_476D_1CE4_E5B9,
    ) ^ (chunk.y as u64).wrapping_mul(0x94D0_49BB_1331_11EB) ^ attempt.wrapping_mul(0xD6E8_FEB8_6659_FD93);
    let first = (mixed ^ (mixed >> 30u64)).wrapping_mul(0xBF58_476D_1CE4_E5B9);
    let second = (first ^ (first >> 27u64)).wrapping_mul(0x94D0_49BB_1331_11EB);
    second ^ (second >> 31u64)
}

pub fn spawn_hash(seed: u64, sequence: u64, chunk: ChunkPos, attempt: u64) -> (hash: u64)
    ensures
        hash == spawn_hash_spec(seed, sequence, chunk, attempt),
{
    let mut value = seed ^ sequence.wrapping_mul(0x9E37_79B9_7F4A_7C15) ^ (chunk.x as u64).wrapping_mul(
        0xBF58_476D_1CE4_E5B9,
    ) ^ (chunk.y as u64).wrapping_mul(0x94D0_49BB_1331_11EB) ^ attempt.wrapping_mul(0xD6E8_FEB8_6659_FD93);
    value = value ^ (value >> 30u64);
    value = value.wrapping_mul(0xBF58_476D_1CE4_E5B9);
    value = value ^ (value >> 27u64);
    value = value.wrapping_mul(0x94D0_49BB_1331_11EB);
    value ^ (value >> 31u64)
}

/// How a kind of furniture draws lifeforms to the chunks around it.
#[derive(Clone, Copy, Debug, PartialEq, Eq, Structural)]
pub enum ChunkActivity {
    /// It keeps no chunk active.
    Dormant,
    /// It keeps the chunks under its footprint active.
    Local,
    /// While switched on, it keeps the chunks around its footprint active.
    Nearby,
}

/// One placed machine as the lifeform spawner sees it: where it stands, how
/// its kind keeps chunks active, the attention its kind draws, and whether it
/// is switched on.
#[derive(Clone, Copy, Debug)]
pub struct MachinerySource {
    pub anchor: TilePos,
    pub size: [u8; 2],
    pub activity: ChunkActivity,
    pub attention: u32,
    pub active: bool,
}

/// The chunk grid, the chunks around the player, and how far a switched-on
/// machine keeps chunks active.
#[derive(Clone, Copy, Debug)]
pub struct MachineryArea {
    pub chunks_wide: u32,
    pub chunks_high: u32,
    pub player_chunks: ChunkRect,
    pub radius: [u32; 2],
}

/// Which chunks machinery keeps active, and the lifeform attention it draws
/// to each, after one refresh.
#[derive(Clone, Debug)]
pub struct MachineryChunks {
    /// Active chunks outside the player's area, in row order.
    pub machinery_chunks: Vec<ChunkPos>,
    /// Chunks where distant machinery may spawn lifeforms, in row order.
    pub spawn_chunks: Vec<ChunkPos>,
    /// Attention drawn to each chunk, each chunk listed once.
    pub attention_by_chunk: Vec<(ChunkPos, u32)>,
    /// Attention drawn by distant machinery to each spawn chunk.
    pub distant_attention_by_chunk: Vec<(ChunkPos, u32)>,
    /// Attention of the machinery whose area reaches the player's chunks.
    pub player_attention: u32,
    /// Attention of the other machinery.
    pub distant_attention: u32,
    /// Where the next round of distant spawn checks starts.
    pub spawn_cursor: usize,
}

pub open spec fn capped(total: int) -> u32 {
    if total > u32::MAX {
        u32::MAX
    } else {
        total as u32
    }
}

pub open spec fn saturating_difference(value: u32, amount: u32) -> u32 {
    if value >= amount {
        (value - amount) as u32
    } else {
        0
    }
}

/// Whether a machine keeps chunks active at all.
pub open spec fn source_eligible(source: MachinerySource) -> bool {
    match source.activity {
        ChunkActivity::Dormant => false,
        ChunkActivity::Local => true,
        ChunkActivity::Nearby => source.active,
    }
}

pub open spec fn source_radius(source: MachinerySource, area: MachineryArea) -> (u32, u32) {
    match source.activity {
        ChunkActivity::Nearby => (area.radius[0], area.radius[1]),
        _ => (0, 0),
    }
}

/// The chunk holding the machine's top-left tile.
pub open spec fn first_chunk(source: MachinerySource) -> ChunkPos {
    ChunkPos { x: (source.anchor.x / 64) as u32, y: (source.anchor.y / 64) as u32 }
}

/// The chunk holding the machine's bottom-right tile.
pub open spec fn last_chunk(source: MachinerySource) -> ChunkPos {
    ChunkPos {
        x: ((source.anchor.x + source.size[0] - 1) / 64) as u32,
        y: ((source.anchor.y + source.size[1] - 1) / 64) as u32,
    }
}

/// Whether a machine lies inside the chunk grid.
pub open spec fn source_in_area(source: MachinerySource, area: MachineryArea) -> bool {
    &&& source.size[0] >= 1
    &&& source.size[1] >= 1
    &&& (source.anchor.x + source.size[0] - 1) / 64 < area.chunks_wide
    &&& (source.anchor.y + source.size[1] - 1) / 64 < area.chunks_high
}

pub open spec fn rect_minimum(source: MachinerySource, area: MachineryArea) -> ChunkPos {
    ChunkPos {
        x: saturating_difference(first_chunk(source).x, source_radius(source, area).0),
        y: saturating_difference(first_chunk(source).y, source_radius(source, area).1),
    }
}

pub open spec fn rect_maximum(source: MachinerySource, area: MachineryArea) -> ChunkPos {
    let last = last_chunk(source);
    let radius = source_radius(source, area);
    ChunkPos {
        x: if last.x + radius.0 < area.chunks_wide - 1 {
            (last.x + radius.0) as u32
        } else {
            (area.chunks_wide - 1) as u32
        },
        y: if last.y + radius.1 < area.chunks_high - 1 {
            (last.y + radius.1) as u32
        } else {
            (area.chunks_high - 1) as u32
        },
    }
}

/// Whether a chunk lies in the rectangle a machine keeps active.
pub open spec fn in_source_rect(source: MachinerySource, area: MachineryArea, chunk: ChunkPos) -> bool {
    let minimum = rect_minimum(source, area);
    let maximum = rect_maximum(source, area);
    minimum.x <= chunk.x <= maximum.x && minimum.y <= chunk.y <= maximum.y
}

pub open spec fn rect_contains(rect: ChunkRect, chunk: ChunkPos) -> bool {
    rect.minimum.x <= chunk.x <= rect.maximum.x && rect.minimum.y <= chunk.y <= rect.maximum.y
}

/// Whether a machine draws attention and its rectangle reaches the player's
/// chunks.
pub open spec fn attracts_player_area(source: MachinerySource, area: MachineryArea) -> bool {
    let minimum = rect_minimum(source, area);
    let maximum = rect_maximum(source, area);
    let player = area.player_chunks;
    source.attention > 0 && minimum.x <= player.maximum.x && maximum.x >= player.minimum.x && minimum.y
        <= player.maximum.y && maximum.y >= player.minimum.y
}

pub open spec fn chessboard_distance(chunk: ChunkPos, minimum: ChunkPos, maximum: ChunkPos) -> u32 {
    if axis_gap(chunk.x, minimum.x, maximum.x) >= axis_gap(chunk.y, minimum.y, maximum.y) {
        axis_gap(chunk.x, minimum.x, maximum.x)
    } else {
        axis_gap(chunk.y, minimum.y, maximum.y)
    }
}

/// A machine's attention in one chunk: its full attention over its own
/// chunks, divided by one more than the distance elsewhere, rounded up.
pub open spec fn cell_attention(source: MachinerySource, chunk: ChunkPos) -> u32 {
    let distance = chessboard_distance(chunk, first_chunk(source), last_chunk(source));
    let divisor: u32 = capped(distance + 1);
    (capped(source.attention + divisor - 1) / divisor) as u32
}

/// A machine keeps this chunk active outside the player's area.
pub open spec fn machinery_cell(source: MachinerySource, area: MachineryArea, chunk: ChunkPos) -> bool {
    source_eligible(source) && in_source_rect(source, area, chunk) && !rect_contains(area.player_chunks, chunk)
}

/// A machine draws attention to this chunk.
pub open spec fn attention_cell(source: MachinerySource, area: MachineryArea, chunk: ChunkPos) -> bool {
    source_eligible(source) && source.attention > 0 && in_source_rect(source, area, chunk)
}

/// A machine away from the player draws attention to this chunk outside
/// the player's area, so lifeforms may spawn there.
pub open spec fn distant_cell(source: MachinerySource, area: MachineryArea, chunk: ChunkPos) -> bool {
    attention_cell(source, area, chunk) && !attracts_player_area(source, area) && !rect_contains(
        area.player_chunks,
        chunk,
    )
}

/// Whether some machine of a run keeps a chunk active outside the player's
/// area.
pub open spec fn machinery_covered(sources: Seq<MachinerySource>, area: MachineryArea, chunk: ChunkPos) -> bool
    decreases sources.len(),
{
    sources.len() > 0 && (machinery_covered(sources.drop_last(), area, chunk) || machinery_cell(
        sources.last(),
        area,
        chunk,
    ))
}

pub open spec fn attention_covered(sources: Seq<MachinerySource>, area: MachineryArea, chunk: ChunkPos) -> bool
    decreases sources.len(),
{
    sources.len() > 0 && (attention_covered(sources.drop_last(), area, chunk) || attention_cell(
        sources.last(),
        area,
        chunk,
    ))
}

pub open spec fn distant_covered(sources: Seq<MachinerySource>, area: MachineryArea, chunk: ChunkPos) -> bool
    decreases sources.len(),
{
    sources.len() > 0 && (distant_covered(sources.drop_last(), area, chunk) || distant_cell(
        sources.last(),
        area,
        chunk,
    ))
}

/// The attention a run of machines draws to a chunk, uncapped.
pub open spec fn attention_sum(sources: Seq<MachinerySource>, area: MachineryArea, chunk: ChunkPos) -> nat
    decreases sources.len(),
{
    if sources.len() == 0 {
        0
    } else {
        attention_sum(sources.drop_last(), area, chunk) + if attention_cell(sources.last(), area, chunk) {
            cell_attention(sources.last(), chunk) as nat
        } else {
            0nat
        }
    }
}

/// The attention distant machines of a run draw to a chunk, uncapped.
pub open spec fn distant_sum(sources: Seq<MachinerySource>, area: MachineryArea, chunk: ChunkPos) -> nat
    decreases sources.len(),
{
    if sources.len() == 0 {
        0
    } else {
        distant_sum(sources.drop_last(), area, chunk) + if distant_cell(sources.last(), area, chunk) {
            cell_attention(sources.last(), chunk) as nat
        } else {
            0nat
        }
    }
}

/// The attention of the machines whose area reaches the player, uncapped.
pub open spec fn player_attention_sum(sources: Seq<MachinerySource>, area: MachineryArea) -> nat
    decreases sources.len(),
{
    if sources.len() == 0 {
        0
    } else {
        player_attention_sum(sources.drop_last(), area) + if source_eligible(sources.last())
            && attracts_player_area(sources.last(), area) {
            sources.last().attention as nat
        } else {
            0nat
        }
    }
}

/// The attention of the other attention-drawing machines, uncapped.
pub open spec fn distant_attention_sum(sources: Seq<MachinerySource>, area: MachineryArea) -> nat
    decreases sources.len(),
{
    if sources.len() == 0 {
        0
    } else {
        distant_attention_sum(sources.drop_last(), area) + if source_eligible(sources.last())
            && sources.last().attention > 0 && !attracts_player_area(sources.last(), area) {
            sources.last().attention as nat
        } else {
            0nat
        }
    }
}

/// Row order of chunks: by row, then by column.
pub open spec fn chunk_before(first: ChunkPos, second: ChunkPos) -> bool {
    first.y < second.y || (first.y == second.y && first.x < second.x)
}

pub open spec fn chunks_sorted(chunks: Seq<ChunkPos>) -> bool {
    forall|i: int, j: int| 0 <= i < j < chunks.len() ==> chunk_before(#[trigger] chunks[i], #[trigger] chunks[j])
}

/// The amount recorded for a chunk, if it is listed.
pub open spec fn amount_at(entries: Seq<(ChunkPos, u32)>, chunk: ChunkPos) -> Option<u32> {
    if exists|i: int| 0 <= i < entries.len() && #[trigger] entries[i].0 == chunk {
        Some(entries[choose|i: int| 0 <= i < entries.len() && #[trigger] entries[i].0 == chunk].1)
    } else {
        None
    }
}

pub open spec fn distinct_chunks(entries: Seq<(ChunkPos, u32)>) -> bool {
    forall|i: int, j: int|
        0 <= i < entries.len() && 0 <= j < entries.len() && #[trigger] entries[i].0 == #[trigger] entries[j].0 ==> i
            == j
}

/// A listed amount after one more contribution, when it applies.
pub open spec fn with_contribution(previous: Option<u32>, applies: bool, amount: u32) -> Option<u32> {
    if applies {
        Some(
            match previous {
                Some(value) => capped(value + amount),
                None => amount,
            },
        )
    } else {
        previous
    }
}

/// The listing a run of machines is summarised to: absent where nothing
/// contributes, otherwise the capped total.
pub open spec fn expected_amount(covered: bool, total: nat) -> Option<u32> {
    if covered {
        Some(capped(total as int))
    } else {
        None
    }
}

fn chunk_precedes(first: ChunkPos, second: ChunkPos) -> (before: bool)
    ensures
        before == chunk_before(first, second),
{
    first.y < second.y || (first.y == second.y && first.x < second.x)
}

/// Adds a chunk to a row-ordered list unless it is already listed.
fn insert_chunk(chunks: &mut Vec<ChunkPos>, chunk: ChunkPos)
    requires
        chunks_sorted(old(chunks)@),
    ensures
        chunks_sorted(final(chunks)@),
        forall|c: ChunkPos| #[trigger] final(chunks)@.contains(c) == (old(chunks)@.contains(c) || c == chunk),
{
    let mut index: usize = 0;
    while index < chunks.len() && chunk_precedes(chunks[index], chunk)
        invariant
            index <= chunks@.len(),
            chunks@ == old(chunks)@,
            forall|i: int| 0 <= i < index ==> chunk_before(#[trigger] chunks@[i], chunk),
        decreases chunks@.len() - index,
    {
        index = index + 1;
    }
    if index < chunks.len() && chunks[index] == chunk {
        assert(old(chunks)@.contains(chunk));
        assert forall|c: ChunkPos| #[trigger] chunks@.contains(c) == (old(chunks)@.contains(c) || c == chunk) by {}
        return;
    }
    let ghost before = chunks@;
    proof {
        if index < before.len() {
            assert(chunk_before(chunk, before[index as int]));
            assert forall|j: int| index <= j < before.len() implies chunk_before(chunk, #[trigger] before[j]) by {
                if j > index {
                    assert(chunk_before(before[index as int], before[j]));
                }
            }
        }
    }
    chunks.insert(index, chunk);
    proof {
        let after = chunks@;
        assert forall|i: int, j: int| 0 <= i < j < after.len() implies chunk_before(
            #[trigger] after[i],
            #[trigger] after[j],
        ) by {
            if j < index {
                assert(chunk_before(before[i], before[j]));
            } else if j == index {
            } else if i < index {
                assert(chunk_before(before[i], chunk));
                assert(chunk_before(chunk, before[j - 1]));
            } else if i == index {
                assert(chunk_before(chunk, before[j - 1]));
            } else {
                assert(chunk_before(before[i - 1], before[j - 1]));
            }
        }
        assert forall|c: ChunkPos| #[trigger] after.contains(c) == (before.contains(c) || c == chunk) by {
            if after.contains(c) {
                let k = choose|k: int| 0 <= k < after.len() && after[k] == c;
                if k < index {
                    assert(before[k] == c);
                } else if k > index {
                    assert(before[k - 1] == c);
                }
            }
            if before.contains(c) {
                let k = choose|k: int| 0 <= k < before.len() && before[k] == c;
                if k < index {
                    assert(after[k] == c);
                } else {
                    assert(after[k + 1] == c);
                }
            }
            if c == chunk {
                assert(after[index as int] == c);
            }
        }
    }
}

/// Adds attention to a chunk's listing, listing the chunk when it is new.
fn add_attention(entries: &mut Vec<(ChunkPos, u32)>, chunk: ChunkPos, amount: u32)
    requires
        distinct_chunks(old(entries)@),
    ensures
        distinct_chunks(final(entries)@),
        forall|c: ChunkPos|
            #[trigger] amount_at(final(entries)@, c) == with_contribution(amount_at(old(entries)@, c), c == chunk, amount),
{
    let mut index: usize = 0;
    while index < entries.len()
        invariant
            index <= entries@.len(),
            entries@ == old(entries)@,
            distinct_chunks(old(entries)@),
            forall|i: int| 0 <= i < index ==> (#[trigger] entries@[i]).0 != chunk,
        decreases entries@.len() - index,
    {
        if entries[index].0 == chunk {
            let ghost before = entries@;
            let previous = entries[index].1;
            entries.set(index, (chunk, previous.saturating_add(amount)));
            proof {
                let after = entries@;
                assert(before[index as int].0 == chunk);
                let found = choose|i: int| 0 <= i < before.len() && #[trigger] before[i].0 == chunk;
                assert(found == index);
                assert(amount_at(before, chunk) == Some(previous));
                assert forall|i: int| 0 <= i < after.len() implies #[trigger] after[i].0 == before[i].0 by {
                    if i == index {
                        assert(after[i].0 == chunk);
                    }
                }
                assert forall|i: int, j: int|
                    0 <= i < after.len() && 0 <= j < after.len() && #[trigger] after[i].0 == #[trigger] after[j].0 implies i
                    == j by {
                    assert(after[i].0 == before[i].0);
                    assert(after[j].0 == before[j].0);
                    assert(before[i].0 == before[j].0);
                }
                assert forall|c: ChunkPos| #[trigger] amount_at(after, c) == with_contribution(
                    amount_at(before, c),
                    c == chunk,
                    amount,
                ) by {
                    if c == chunk {
                        assert(after[index as int].0 == c);
                    } else {
                        if exists|i: int| 0 <= i < before.len() && #[trigger] before[i].0 == c {
                            let k = choose|i: int| 0 <= i < before.len() && #[trigger] before[i].0 == c;
                            assert(after[k].0 == c);
                        }
                        if exists|i: int| 0 <= i < after.len() && #[trigger] after[i].0 == c {
                            let k = choose|i: int| 0 <= i < after.len() && #[trigger] after[i].0 == c;
                            assert(before[k].0 == c);
                        }
                    }
                }
            }
            return;
        }
        index = index + 1;
    }
    let ghost before = entries@;
    entries.push((chunk, amount));
    proof {
        let after = entries@;
        assert(after[before.len() as int].0 == chunk);
        assert forall|c: ChunkPos| #[trigger] amount_at(after, c) == with_contribution(
            amount_at(before, c),
            c == chunk,
            amount,
        ) by {
            if c == chunk {
                assert(!exists|i: int| 0 <= i < before.len() && #[trigger] before[i].0 == c);
            } else {
                if exists|i: int| 0 <= i < before.len() && #[trigger] before[i].0 == c {
                    let k = choose|i: int| 0 <= i < before.len() && #[trigger] before[i].0 == c;
                    assert(after[k].0 == c);
                }
                if exists|i: int| 0 <= i < after.len() && #[trigger] after[i].0 == c {
                    let k = choose|i: int| 0 <= i < after.len() && #[trigger] after[i].0 == c;
                    assert(before[k].0 == c);
                }
            }
        }
    }
}

/// Whether a chunk comes before column `x` of row `y` in row order.
pub open spec fn cell_done(chunk: ChunkPos, y: u32, x: u32) -> bool {
    chunk.y < y || (chunk.y == y && chunk.x < x)
}

/// The first and last chunk of a machine's footprint.
fn footprint_chunks(source: MachinerySource) -> (chunks: (ChunkPos, ChunkPos))
    requires
        source.size[0] >= 1,
        source.size[1] >= 1,
    ensures
        chunks.0 == first_chunk(source),
        chunks.1 == last_chunk(source),
{
    let first = ChunkPos { x: source.anchor.x / 64, y: source.anchor.y / 64 };
    let last_x: u64 = (source.anchor.x as u64 + source.size[0] as u64 - 1) / 64;
    let last_y: u64 = (source.anchor.y as u64 + source.size[1] as u64 - 1) / 64;
    (first, ChunkPos { x: last_x as u32, y: last_y as u32 })
}

/// The rectangle of chunks a machine keeps active.
fn source_rect(source: MachinerySource, area: MachineryArea) -> (rect: (ChunkPos, ChunkPos))
    requires
        source_in_area(source, area),
    ensures
        rect.0 == rect_minimum(source, area),
        rect.1 == rect_maximum(source, area),
        rect.0.x <= first_chunk(source).x <= last_chunk(source).x <= rect.1.x < area.chunks_wide,
        rect.0.y <= first_chunk(source).y <= last_chunk(source).y <= rect.1.y < area.chunks_high,
{
    let (first, last) = footprint_chunks(source);
    let radius: (u32, u32) = match source.activity {
        ChunkActivity::Nearby => (area.radius[0], area.radius[1]),
        _ => (0, 0),
    };
    let minimum = ChunkPos { x: first.x.saturating_sub(radius.0), y: first.y.saturating_sub(radius.1) };
    let reach_x = last.x.saturating_add(radius.0);
    let reach_y = last.y.saturating_add(radius.1);
    let maximum = ChunkPos {
        x: if reach_x < area.chunks_wide - 1 { reach_x } else { area.chunks_wide - 1 },
        y: if reach_y < area.chunks_high - 1 { reach_y } else { area.chunks_high - 1 },
    };
    (minimum, maximum)
}

/// One machine's attention in one chunk.
fn chunk_attention(source: MachinerySource, chunk: ChunkPos) -> (amount: u32)
    requires
        source.size[0] >= 1,
        source.size[1] >= 1,
    ensures
        amount == cell_attention(source, chunk),
{
    let (first, last) = footprint_chunks(source);
    let distance = chunk_distance_from_rect(chunk, first, last);
    let divisor = distance.saturating_add(1);
    source.attention.saturating_add(divisor - 1) / divisor
}

/// Adds every chunk of one machine's rectangle to the listings.
fn add_source_cells(
    source: MachinerySource,
    area: MachineryArea,
    machinery: &mut Vec<ChunkPos>,
    spawn: &mut Vec<ChunkPos>,
    attention: &mut Vec<(ChunkPos, u32)>,
    distant: &mut Vec<(ChunkPos, u32)>,
)
    requires
        source_eligible(source),
        source_in_area(source, area),
        chunks_sorted(old(machinery)@),
        chunks_sorted(old(spawn)@),
        distinct_chunks(old(attention)@),
        distinct_chunks(old(distant)@),
    ensures
        chunks_sorted(final(machinery)@),
        chunks_sorted(final(spawn)@),
        distinct_chunks(final(attention)@),
        distinct_chunks(final(distant)@),
        forall|c: ChunkPos|
            #[trigger] final(machinery)@.contains(c) == (old(machinery)@.contains(c) || machinery_cell(
                source,
                area,
                c,
            )),
        forall|c: ChunkPos|
            #[trigger] final(spawn)@.contains(c) == (old(spawn)@.contains(c) || distant_cell(source, area, c)),
        forall|c: ChunkPos|
            #[trigger] amount_at(final(attention)@, c) == with_contribution(
                amount_at(old(attention)@, c),
                attention_cell(source, area, c),
                cell_attention(source, c),
            ),
        forall|c: ChunkPos|
            #[trigger] amount_at(final(distant)@, c) == with_contribution(
                amount_at(old(distant)@, c),
                distant_cell(source, area, c),
                cell_attention(source, c),
            ),
{
    let (minimum, maximum) = source_rect(source, area);
    let player = area.player_chunks;
    let attracts = source.attention > 0;
    let attracts_player = attracts && chunk_rects_intersect(minimum, maximum, player);
    let ghost machinery_start = machinery@;
    let ghost spawn_start = spawn@;
    let ghost attention_start = attention@;
    let ghost distant_start = distant@;
    let mut y = minimum.y;
    while y <= maximum.y
        invariant
            minimum == rect_minimum(source, area),
            maximum == rect_maximum(source, area),
            minimum.x <= maximum.x < area.chunks_wide,
            minimum.y <= y <= maximum.y + 1,
            maximum.y < area.chunks_high,
            player == area.player_chunks,
            source_eligible(source),
            source_in_area(source, area),
            attracts == (source.attention > 0),
            attracts_player == attracts_player_area(source, area),
            chunks_sorted(machinery@),
            chunks_sorted(spawn@),
            distinct_chunks(attention@),
            distinct_chunks(distant@),
            forall|c: ChunkPos|
                #[trigger] machinery@.contains(c) == (machinery_start.contains(c) || (machinery_cell(source, area, c)
                    && cell_done(c, y, minimum.x))),
            forall|c: ChunkPos|
                #[trigger] spawn@.contains(c) == (spawn_start.contains(c) || (distant_cell(source, area, c) && cell_done(
                    c,
                    y,
                    minimum.x,
                ))),
            forall|c: ChunkPos|
                #[trigger] amount_at(attention@, c) == with_contribution(
                    amount_at(attention_start, c),
                    attention_cell(source, area, c) && cell_done(c, y, minimum.x),
                    cell_attention(source, c),
                ),
            forall|c: ChunkPos|
                #[trigger] amount_at(distant@, c) == with_contribution(
                    amount_at(distant_start, c),
                    distant_cell(source, area, c) && cell_done(c, y, minimum.x),
                    cell_attention(source, c),
                ),
        decreases maximum.y + 1 - y,
    {
        let mut x = minimum.x;
        while x <= maximum.x
            invariant
                minimum == rect_minimum(source, area),
                maximum == rect_maximum(source, area),
                minimum.x <= x <= maximum.x + 1,
                maximum.x < area.chunks_wide,
                minimum.y <= y <= maximum.y,
                maximum.y < area.chunks_high,
                player == area.player_chunks,
                source_eligible(source),
                source_in_area(source, area),
                attracts == (source.attention > 0),
                attracts_player == attracts_player_area(source, area),
                chunks_sorted(machinery@),
                chunks_sorted(spawn@),
                distinct_chunks(attention@),
                distinct_chunks(distant@),
                forall|c: ChunkPos|
                    #[trigger] machinery@.contains(c) == (machinery_start.contains(c) || (machinery_cell(
                        source,
                        area,
                        c,
                    ) && cell_done(c, y, x))),
                forall|c: ChunkPos|
                    #[trigger] spawn@.contains(c) == (spawn_start.contains(c) || (distant_cell(source, area, c)
                        && cell_done(c, y, x))),
                forall|c: ChunkPos|
                    #[trigger] amount_at(attention@, c) == with_contribution(
                        amount_at(attention_start, c),
                        attention_cell(source, area, c) && cell_done(c, y, x),
                        cell_attention(source, c),
                    ),
                forall|c: ChunkPos|
                    #[trigger] amount_at(distant@, c) == with_contribution(
                        amount_at(distant_start, c),
                        distant_cell(source, area, c) && cell_done(c, y, x),
                        cell_attention(source, c),
                    ),
            decreases maximum.x + 1 - x,
        {
            let chunk = ChunkPos { x, y };
            let outside = !player.contains(chunk);
            let ghost machinery_before = machinery@;
            let ghost spawn_before = spawn@;
            let ghost attention_before = attention@;
            let ghost distant_before = distant@;
            assert(in_source_rect(source, area, chunk));
            if outside {
                insert_chunk(machinery, chunk);
            }
            if attracts {
                let amount = chunk_attention(source, chunk);
                add_attention(attention, chunk, amount);
                if !attracts_player && outside {
                    add_attention(distant, chunk, amount);
                    insert_chunk(spawn, chunk);
                }
            }
            proof {
                assert forall|c: ChunkPos| #[trigger] machinery@.contains(c) == (machinery_start.contains(c) || (
                machinery_cell(source, area, c) && cell_done(c, y, (x + 1) as u32))) by {
                    assert(machinery_before.contains(c) == (machinery_start.contains(c) || (machinery_cell(
                        source,
                        area,
                        c,
                    ) && cell_done(c, y, x))));
                }
                assert forall|c: ChunkPos| #[trigger] spawn@.contains(c) == (spawn_start.contains(c) || (
                distant_cell(source, area, c) && cell_done(c, y, (x + 1) as u32))) by {
                    assert(spawn_before.contains(c) == (spawn_start.contains(c) || (distant_cell(source, area, c)
                        && cell_done(c, y, x))));
                }
                assert forall|c: ChunkPos| #[trigger] amount_at(attention@, c) == with_contribution(
                    amount_at(attention_start, c),
                    attention_cell(source, area, c) && cell_done(c, y, (x + 1) as u32),
                    cell_attention(source, c),
                ) by {
                    assert(amount_at(attention_before, c) == with_contribution(
                        amount_at(attention_start, c),
                        attention_cell(source, area, c) && cell_done(c, y, x),
                        cell_attention(source, c),
                    ));
                }
                assert forall|c: ChunkPos| #[trigger] amount_at(distant@, c) == with_contribution(
                    amount_at(distant_start, c),
                    distant_cell(source, area, c) && cell_done(c, y, (x + 1) as u32),
                    cell_attention(source, c),
                ) by {
                    assert(amount_at(distant_before, c) == with_contribution(
                        amount_at(distant_start, c),
                        distant_cell(source, area, c) && cell_done(c, y, x),
                        cell_attention(source, c),
                    ));
                }
            }
            x = x + 1;
        }
        proof {
            assert forall|c: ChunkPos| in_source_rect(source, area, c) implies cell_done(c, y, x) == cell_done(
                c,
                (y + 1) as u32,
                minimum.x,
            ) by {}
        }
        y = y + 1;
    }
    proof {
        assert forall|c: ChunkPos| in_source_rect(source, area, c) implies #[trigger] cell_done(
            c,
            y,
            minimum.x,
        ) by {}
    }
}

/// A chunk no machine of a run draws attention to has none.
pub proof fn lemma_uncovered_sums(sources: Seq<MachinerySource>, area: MachineryArea, chunk: ChunkPos)
    ensures
        !attention_covered(sources, area, chunk) ==> attention_sum(sources, area, chunk) == 0,
        !distant_covered(sources, area, chunk) ==> distant_sum(sources, area, chunk) == 0,
    decreases sources.len(),
{
    if sources.len() > 0 {
        lemma_uncovered_sums(sources.drop_last(), area, chunk);
    }
}

/// Recomputes which chunks machinery keeps active and the lifeform attention
/// it draws. Chunks are active around each machine whose kind keeps chunks
/// active (kinds that act on nearby chunks only while switched on): its own
/// chunks, widened by the area's radius for nearby kinds and clipped to the
/// grid. Each attention-drawing machine adds its attention, divided by one
/// more than the chessboard distance and rounded up, to every chunk of its
/// rectangle; a machine whose rectangle reaches the player's chunks counts
/// towards the player's attention, any other towards the distant attention
/// and towards spawning in its chunks outside the player's area. Sums
/// saturate. The spawn cursor is kept within the new spawn chunks.
pub fn refresh_machinery_chunks(sources: &[MachinerySource], area: MachineryArea, cursor: usize) -> (refreshed:
    MachineryChunks)
    requires
        area.chunks_wide >= 1,
        area.chunks_high >= 1,
        forall|i: int|
            0 <= i < sources@.len() && source_eligible(#[trigger] sources@[i]) ==> source_in_area(sources@[i], area),
    ensures
        chunks_sorted(refreshed.machinery_chunks@),
        forall|c: ChunkPos|
            #[trigger] refreshed.machinery_chunks@.contains(c) == machinery_covered(sources@, area, c),
        chunks_sorted(refreshed.spawn_chunks@),
        forall|c: ChunkPos| #[trigger] refreshed.spawn_chunks@.contains(c) == distant_covered(sources@, area, c),
        distinct_chunks(refreshed.attention_by_chunk@),
        forall|c: ChunkPos|
            #[trigger] amount_at(refreshed.attention_by_chunk@, c) == expected_amount(
                attention_covered(sources@, area, c),
                attention_sum(sources@, area, c),
            ),
        distinct_chunks(refreshed.distant_attention_by_chunk@),
        forall|c: ChunkPos|
            #[trigger] amount_at(refreshed.distant_attention_by_chunk@, c) == expected_amount(
                distant_covered(sources@, area, c),
                distant_sum(sources@, area, c),
            ),
        refreshed.player_attention == capped(player_attention_sum(sources@, area) as int),
        refreshed.distant_attention == capped(distant_attention_sum(sources@, area) as int),
        refreshed.spawn_cursor == (if refreshed.spawn_chunks@.len() > 0 {
            cursor as int % refreshed.spawn_chunks@.len() as int
        } else {
            0
        }),
{
    let mut machinery: Vec<ChunkPos> = Vec::new();
    let mut spawn: Vec<ChunkPos> = Vec::new();
    let mut attention: Vec<(ChunkPos, u32)> = Vec::new();
    let mut distant: Vec<(ChunkPos, u32)> = Vec::new();
    let mut player_attention: u32 = 0;
    let mut distant_attention: u32 = 0;
    let mut index: usize = 0;
    while index < sources.len()
        invariant
            index <= sources@.len(),
            area.chunks_wide >= 1,
            area.chunks_high >= 1,
            forall|i: int|
                0 <= i < sources@.len() && source_eligible(#[trigger] sources@[i]) ==> source_in_area(
                    sources@[i],
                    area,
                ),
            chunks_sorted(machinery@),
            chunks_sorted(spawn@),
            distinct_chunks(attention@),
            distinct_chunks(distant@),
            forall|c: ChunkPos|
                #[trigger] machinery@.contains(c) == machinery_covered(sources@.take(index as int), area, c),
            forall|c: ChunkPos|
                #[trigger] spawn@.contains(c) == distant_covered(sources@.take(index as int), area, c),
            forall|c: ChunkPos|
                #[trigger] amount_at(attention@, c) == expected_amount(
                    attention_covered(sources@.take(index as int), area, c),
                    attention_sum(sources@.take(index as int), area, c),
                ),
            forall|c: ChunkPos|
                #[trigger] amount_at(distant@, c) == expected_amount(
                    distant_covered(sources@.take(index as int), area, c),
                    distant_sum(sources@.take(index as int), area, c),
                ),
            player_attention == capped(player_attention_sum(sources@.take(index as int), area) as int),
            distant_attention == capped(distant_attention_sum(sources@.take(index as int), area) as int),
        decreases sources@.len() - index,
    {
        let source = sources[index];
        let ghost done = sources@.take(index as int);
        let ghost next = sources@.take(index + 1);
        let ghost machinery_before = machinery@;
        let ghost spawn_before = spawn@;
        let ghost attention_before = attention@;
        let ghost distant_before = distant@;
        proof {
            assert(next.drop_last() =~= done);
            assert(next.last() == source);
        }
        let eligible = match source.activity {
            ChunkActivity::Dormant => false,
            ChunkActivity::Local => true,
            ChunkActivity::Nearby => source.active,
        };
        if eligible {
            let (minimum, maximum) = source_rect(source, area);
            if source.attention > 0 {
                if chunk_rects_intersect(minimum, maximum, area.player_chunks) {
                    player_attention = player_attention.saturating_add(source.attention);
                } else {
                    distant_attention = distant_attention.saturating_add(source.attention);
                }
            }
            add_source_cells(source, area, &mut machinery, &mut spawn, &mut attention, &mut distant);
        }
        proof {
            assert forall|c: ChunkPos| #[trigger] amount_at(attention@, c) == expected_amount(
                attention_covered(next, area, c),
                attention_sum(next, area, c),
            ) by {
                lemma_uncovered_sums(done, area, c);
                assert(amount_at(attention_before, c) == expected_amount(
                    attention_covered(done, area, c),
                    attention_sum(done, area, c),
                ));
            }
            assert forall|c: ChunkPos| #[trigger] amount_at(distant@, c) == expected_amount(
                distant_covered(next, area, c),
                distant_sum(next, area, c),
            ) by {
                lemma_uncovered_sums(done, area, c);
                assert(amount_at(distant_before, c) == expected_amount(
                    distant_covered(done, area, c),
                    distant_sum(done, area, c),
                ));
            }
            assert forall|c: ChunkPos| #[trigger] machinery@.contains(c) == machinery_covered(next, area, c) by {
                assert(machinery_before.contains(c) == machinery_covered(done, area, c));
            }
            assert forall|c: ChunkPos| #[trigger] spawn@.contains(c) == distant_covered(next, area, c) by {
                assert(spawn_before.contains(c) == distant_covered(done, area, c));
            }
        }
        index = index + 1;
    }
    proof {
        assert(sources@.take(sources@.len() as int) =~= sources@);
    }
    let spawn_cursor = if spawn.len() > 0 { cursor % spawn.len() } else { 0 };
    MachineryChunks {
        machinery_chunks: machinery,
        spawn_chunks: spawn,
        attention_by_chunk: attention,
        distant_attention_by_chunk: distant,
        player_attention,
        distant_attention,
        spawn_cursor,
    }
}

/// Why a lifeform kind cannot be registered or found.
#[derive(Clone, Copy, Debug, PartialEq, Eq, Structural)]
pub enum LifeformSystemError {
    DuplicateId(LifeformId),
    InvalidDefinition(LifeformId),
    UnknownId(LifeformId),
}

/// Attention from machinery needed before roaming lifeforms turn hostile.
pub const DEFAULT_HOSTILE_MACHINERY_ATTENTION: u32 = 32;

/// Attention from machinery needed before glowgnats appear.
pub const GLOWGNAT_MIN_MACHINERY_ATTENTION: u32 = 48;

/// How the lifeform spawner paces and bounds its work. Intervals are in
/// nanoseconds.
#[derive(Clone, Copy, Debug, PartialEq, Eq)]
pub struct LifeformSimulationConfig {
    pub player_chunk_radius: [u32; 2],
    pub machinery_chunk_radius: [u32; 2],
    pub player_spawn_interval_nanos: u64,
    pub machinery_refresh_interval_nanos: u64,
    pub machinery_spawn_interval_nanos: u64,
    pub max_player_chunks_per_spawn: usize,
    pub max_machinery_chunks_per_spawn: usize,
    pub spawn_attempts_per_chunk: usize,
    pub maximum_lifeforms: usize,
    pub maximum_lifeforms_per_chunk: usize,
    pub visibility_margin_tiles: u32,
    /// Baseline pressure around the player when no machinery is nearby.
    pub ambient_spawn_attention: u32,
    /// Attention required to sustain one lifeform in an active area.
    pub attention_per_lifeform: u32,
    /// Attention at which each scheduled chunk check is guaranteed to try spawning.
    pub attention_for_guaranteed_spawn: u32,
    /// Local machinery attention required before roaming lifeforms become hostile.
    pub minimum_hostile_attention: u32,
    /// Per-update cap for sparse terrain changes by lifeforms.
    pub max_block_attacks_per_update: usize,
}

impl Default for LifeformSimulationConfig {
    fn default() -> (config: Self)
        ensures
            config.player_chunk_radius@ == seq![2u32, 1u32],
            config.machinery_chunk_radius@ == seq![1u32, 1u32],
            config.player_spawn_interval_nanos == 1_000_000_000,
            config.machinery_refresh_interval_nanos == 250_000_000,
            config.machinery_spawn_interval_nanos == 4_000_000_000,
            config.max_player_chunks_per_spawn == 8,
            config.max_machinery_chunks_per_spawn == 4,
            config.spawn_attempts_per_chunk == 3,
            config.maximum_lifeforms == 128,
            config.maximum_lifeforms_per_chunk == 4,
            config.visibility_margin_tiles == 4,
            config.ambient_spawn_attention == 1,
            config.attention_per_lifeform == 24,
            config.attention_for_guaranteed_spawn == 64,
            config.minimum_hostile_attention == DEFAULT_HOSTILE_MACHINERY_ATTENTION,
            config.max_block_attacks_per_update == 32,
    {
        let config = LifeformSimulationConfig {
            player_chunk_radius: [2, 1],
            machinery_chunk_radius: [1, 1],
            player_spawn_interval_nanos: 1_000_000_000,
            machinery_refresh_interval_nanos: 250_000_000,
            machinery_spawn_interval_nanos: 4_000_000_000,
            max_player_chunks_per_spawn: 8,
            max_machinery_chunks_per_spawn: 4,
            spawn_attempts_per_chunk: 3,
            maximum_lifeforms: 128,
            maximum_lifeforms_per_chunk: 4,
            visibility_margin_tiles: 4,
            ambient_spawn_attention: 1,
            attention_per_lifeform: 24,
            attention_for_guaranteed_spawn: 64,
            minimum_hostile_attention: DEFAULT_HOSTILE_MACHINERY_ATTENTION,
            max_block_attacks_per_update: 32,
        };
        assert(config.player_chunk_radius@ =~= seq![2u32, 1u32]);
        assert(config.machinery_chunk_radius@ =~= seq![1u32, 1u32]);
        config
    }
}

/// What the spawner reads of a lifeform kind: where and how often it
/// appears.
#[derive(Clone, Debug)]
pub struct LifeformSpawnRule {
    pub id: LifeformId,
    pub spawn_biomes: Vec<BiomeId>,
    pub minimum_spawn_attention: u32,
    pub spawn_weight: u16,
}

/// Whether a kind may spawn in a biome with this much attention.
pub open spec fn spawn_eligible(rule: LifeformSpawnRule, biome: BiomeId, attention: u32) -> bool {
    attention >= rule.minimum_spawn_attention && rule.spawn_biomes@.contains(biome)
}

/// The total spawn weight of the eligible kinds.
pub open spec fn eligible_weight(rules: Seq<LifeformSpawnRule>, biome: BiomeId, attention: u32) -> nat
    decreases rules.len(),
{
    if rules.len() == 0 {
        0
    } else {
        eligible_weight(rules.drop_last(), biome, attention) + if spawn_eligible(rules.last(), biome, attention) {
            rules.last().spawn_weight as nat
        } else {
            0nat
        }
    }
}

/// The eligible kind whose share of the weight, in order, holds the ticket.
pub open spec fn pick_spawn(rules: Seq<LifeformSpawnRule>, biome: BiomeId, attention: u32, ticket: int) -> Option<
    LifeformId,
>
    decreases rules.len(),
{
    if rules.len() == 0 {
        None
    } else if spawn_eligible(rules[0], biome, attention) {
        if ticket < rules[0].spawn_weight {
            Some(rules[0].id)
        } else {
            pick_spawn(rules.drop_first(), biome, attention, ticket - rules[0].spawn_weight)
        }
    } else {
        pick_spawn(rules.drop_first(), biome, attention, ticket)
    }
}

/// The spawn hash rotated left by eleven bits.
pub open spec fn spawn_ticket(hash: u64) -> u64 {
    (hash << 11u64) | (hash >> 53u64)
}

fn biome_listed(biomes: &Vec<BiomeId>, biome: BiomeId) -> (found: bool)
    ensures
        found == biomes@.contains(biome),
{
    let mut index: usize = 0;
    while index < biomes.len()
        invariant
            index <= biomes@.len(),
            forall|i: int| 0 <= i < index ==> #[trigger] biomes@[i] != biome,
        decreases biomes@.len() - index,
    {
        if biomes[index] == biome {
            assert(biomes@[index as int] == biome);
            return true;
        }
        index = index + 1;
    }
    false
}

/// Chooses which kind spawns in a biome under some attention: a kind is
/// eligible when the attention reaches its minimum and the biome is one of
/// its spawn biomes; the hash, rotated left by eleven bits, picks among the
/// eligible kinds in proportion to their weights, in order. None when no
/// weight is eligible.
pub fn select_spawn(rules: &[LifeformSpawnRule], biome: BiomeId, attention: u32, hash: u64) -> (chosen: Option<
    LifeformId,
>)
    requires
        rules@.len() <= u32::MAX,
    ensures
        eligible_weight(rules@, biome, attention) == 0 ==> chosen is None,
        eligible_weight(rules@, biome, attention) > 0 ==> chosen == pick_spawn(
            rules@,
            biome,
            attention,
            spawn_ticket(hash) as int % eligible_weight(rules@, biome, attention) as int,
        ),
{
    let mut total: u64 = 0;
    let mut index: usize = 0;
    while index < rules.len()
        invariant
            index <= rules@.len(),
            rules@.len() <= u32::MAX,
            total == eligible_weight(rules@.take(index as int), biome, attention),
            total <= index * 65_535,
        decreases rules@.len() - index,
    {
        proof {
            assert(rules@.take(index + 1).drop_last() =~= rules@.take(index as int));
        }
        let rule = &rules[index];
        if attention >= rule.minimum_spawn_attention && biome_listed(&rule.spawn_biomes, biome) {
            total = total + rule.spawn_weight as u64;
        }
        index = index + 1;
    }
    proof {
        assert(rules@.take(rules@.len() as int) =~= rules@);
    }
    if total == 0 {
        return None;
    }
    let rotated = (hash << 11u64) | (hash >> 53u64);
    let mut ticket = rotated % total;
    let mut index: usize = 0;
    proof {
        assert(rules@.skip(0) =~= rules@);
    }
    while index < rules.len()
        invariant
            index <= rules@.len(),
            total == eligible_weight(rules@, biome, attention),
            total > 0,
            pick_spawn(rules@.skip(index as int), biome, attention, ticket as int) == pick_spawn(
                rules@,
                biome,
                attention,
                spawn_ticket(hash) as int % eligible_weight(rules@, biome, attention) as int,
            ),
        decreases rules@.len() - index,
    {
        proof {
            assert(rules@.skip(index as int).drop_first() =~= rules@.skip(index + 1));
            assert(rules@.skip(index as int)[0] == rules@[index as int]);
        }
        let rule = &rules[index];
        if attention >= rule.minimum_spawn_attention && biome_listed(&rule.spawn_biomes, biome) {
            let weight = rule.spawn_weight as u64;
            if ticket < weight {
                return Some(rule.id);
            }
            ticket = ticket - weight;
        }
        index = index + 1;
    }
    None
}

/// Whether a scheduled chunk check goes on to try spawning. Never without
/// attention; otherwise a fresh spawn hash, taken modulo the attention that
/// guarantees a try (at least one), must fall below the attention. A check
/// with attention uses up one spawn sequence number.
pub fn spawn_pressure_succeeds(
    sequence: &mut u64,
    guaranteed_attention: u32,
    seed: u64,
    chunk: ChunkPos,
    attention: u32,
) -> (succeeds: bool)
    ensures
        attention == 0 ==> !succeeds && *final(sequence) == *old(sequence),
        attention > 0 ==> {
            let threshold: u64 = if guaranteed_attention > 0 { guaranteed_attention as u64 } else { 1 };
            let limit: u64 = if (attention as u64) < threshold { attention as u64 } else { threshold };
            &&& *final(sequence) == (*old(sequence)).wrapping_add(1)
            &&& succeeds == (spawn_hash_spec(seed, *old(sequence), chunk, u64::MAX) % threshold < limit)
        },
{
    if attention == 0 {
        return false;
    }
    let threshold: u64 = if guaranteed_attention > 0 { guaranteed_attention as u64 } else { 1 };
    let hash = spawn_hash(seed, *sequence, chunk, u64::MAX);
    *sequence = sequence.wrapping_add(1);
    let limit: u64 = if (attention as u64) < threshold { attention as u64 } else { threshold };
    hash % threshold < limit
}


/// One spawn round over a ring of chunks: it checks up to `checks` chunks
/// from `cursor` on, while the area's population stays under its limit and
/// the whole population under the maximum, and then moves the cursor on by
/// `checks`. `pending` marks a chunk handed out whose spawns are not yet
/// recorded; `allowance` is how many that chunk may spawn.
#[derive(Clone, Copy, Debug, PartialEq, Eq, Structural)]
pub struct SpawnRound {
    pub cursor: usize,
    pub chunk_count: usize,
    pub checks: usize,
    pub offset: usize,
    pub population: usize,
    pub area_population: usize,
    pub area_limit: usize,
    pub maximum: usize,
    pub checked: usize,
    pub capped: bool,
    pub pending: bool,
    pub allowance: usize,
    pub done: bool,
}

/// The bound below which the round's counters stay.
pub const SPAWN_ROUND_LIMIT: usize = 1_000_000_000;

impl SpawnRound {
    pub open spec fn wf(self) -> bool {
        &&& self.counts_wf()
        &&& !self.done ==> self.population <= self.maximum
        &&& self.pending ==> !self.done
    }

    /// The counters' bounds.
    pub open spec fn counts_wf(self) -> bool {
        &&& self.checks <= self.chunk_count
        &&& self.offset <= self.checks
        &&& self.checked + (if self.pending { 1int } else { 0int }) <= self.offset
        &&& self.chunk_count <= SPAWN_ROUND_LIMIT
        &&& self.maximum <= SPAWN_ROUND_LIMIT
        &&& self.area_limit <= SPAWN_ROUND_LIMIT
        &&& self.population <= self.maximum + SPAWN_ROUND_LIMIT
        &&& self.area_population <= self.population
        &&& self.allowance <= SPAWN_ROUND_LIMIT
        &&& self.cursor < self.chunk_count || self.chunk_count == 0
    }
}

/// A round that checks at most `max_checks` of `chunk_count` chunks, from
/// the cursor taken around the ring.
pub open spec fn spawn_round_start(
    cursor: usize,
    chunk_count: usize,
    max_checks: usize,
    population: usize,
    area_population: usize,
    area_limit: usize,
    maximum: usize,
) -> SpawnRound {
    SpawnRound {
        cursor: if chunk_count == 0 { cursor } else { (cursor % chunk_count) as usize },
        chunk_count,
        checks: if max_checks < chunk_count { max_checks } else { chunk_count },
        offset: 0,
        population,
        area_population,
        area_limit,
        maximum,
        checked: 0,
        capped: false,
        pending: false,
        allowance: 0,
        done: false,
    }
}

/// Starts a spawn round.
pub fn start_spawn_round(
    cursor: usize,
    chunk_count: usize,
    max_checks: usize,
    population: usize,
    area_population: usize,
    area_limit: usize,
    maximum: usize,
) -> (round: SpawnRound)
    requires
        chunk_count <= SPAWN_ROUND_LIMIT,
        population <= maximum <= SPAWN_ROUND_LIMIT,
        area_population <= population,
        area_limit <= SPAWN_ROUND_LIMIT,
    ensures
        round == spawn_round_start(cursor, chunk_count, max_checks, population, area_population, area_limit, maximum),
        round.wf(),
{
    let cursor = if chunk_count == 0 { cursor } else { cursor % chunk_count };
    SpawnRound {
        cursor,
        chunk_count,
        checks: if max_checks < chunk_count { max_checks } else { chunk_count },
        offset: 0,
        population,
        area_population,
        area_limit,
        maximum,
        checked: 0,
        capped: false,
        pending: false,
        allowance: 0,
        done: false,
    }
}

/// The round ended: the cursor moves on by the chunks it was to check.
pub open spec fn round_finished(round: SpawnRound) -> SpawnRound {
    SpawnRound {
        done: true,
        pending: false,
        cursor: if round.chunk_count == 0 {
            round.cursor
        } else {
            ((round.cursor + round.checks) % (round.chunk_count as int)) as usize
        },
        ..round
    }
}

/// The round after the chunk handed out spawned `spawned` lifeforms: the
/// counts rise, and reaching the maximum population ends the round.
pub open spec fn round_recorded(round: SpawnRound, spawned: usize) -> SpawnRound {
    let recorded = SpawnRound {
        population: (round.population + spawned) as usize,
        area_population: (round.area_population + spawned) as usize,
        checked: (round.checked + 1) as usize,
        pending: false,
        ..round
    };
    if recorded.population >= recorded.maximum {
        round_finished(SpawnRound { capped: true, ..recorded })
    } else {
        recorded
    }
}

/// One step of a spawn round: record what the chunk handed out spawned,
/// then hand out the next chunk with its allowance, or end the round when
/// all chunks were checked or the area's population reached its limit.
pub open spec fn spawn_step_spec(round: SpawnRound, spawned: usize) -> (SpawnRound, Option<(usize, usize)>) {
    let current = if round.pending {
        round_recorded(round, spawned)
    } else {
        round
    };
    if current.done {
        (current, None)
    } else if current.offset >= current.checks {
        (round_finished(current), None)
    } else if current.area_population >= current.area_limit {
        (round_finished(SpawnRound { capped: true, ..current }), None)
    } else {
        let allowance = (current.area_limit - current.area_population) as usize;
        (
            SpawnRound { offset: (current.offset + 1) as usize, pending: true, allowance, ..current },
            Some((((current.cursor + current.offset) % (current.chunk_count as int)) as usize, allowance)),
        )
    }
}

fn finish_round(round: SpawnRound) -> (next: SpawnRound)
    requires
        round.counts_wf(),
    ensures
        next == round_finished(round),
        next.wf(),
{
    let cursor = if round.chunk_count == 0 {
        round.cursor
    } else {
        (round.cursor + round.checks) % round.chunk_count
    };
    SpawnRound { done: true, pending: false, cursor, ..round }
}

/// One step of a spawn round; `spawned` is what the chunk handed out by the
/// previous step spawned, at most its allowance.
pub fn spawn_round_step(round: SpawnRound, spawned: usize) -> (next: (SpawnRound, Option<(usize, usize)>))
    requires
        round.wf(),
        round.pending ==> spawned <= round.allowance,
    ensures
        next == spawn_step_spec(round, spawned),
        next.0.wf(),
{
    let mut current = round;
    if round.pending {
        current = SpawnRound {
            population: round.population + spawned,
            area_population: round.area_population + spawned,
            checked: round.checked + 1,
            pending: false,
            ..round
        };
        if current.population >= current.maximum {
            current = finish_round(SpawnRound { capped: true, ..current });
        }
    }
    if current.done {
        return (current, None);
    }
    if current.offset >= current.checks {
        return (finish_round(current), None);
    }
    if current.area_population >= current.area_limit {
        return (finish_round(SpawnRound { capped: true, ..current }), None);
    }
    let allowance = current.area_limit - current.area_population;
    let index = (current.cursor + current.offset) % current.chunk_count;
    (SpawnRound { offset: current.offset + 1, pending: true, allowance, ..current }, Some((index, allowance)))
}

} // verus!
