use vstd::prelude::*;
use crate::terrain::TilePos;

verus! {

/// What the power system does on an update: rebuild everything after
/// power furniture changed, recheck the sight lines that cross changed
/// tiles after only the foreground changed, or nothing.
#[derive(Clone, Copy, Debug, PartialEq, Eq, Structural)]
pub enum PowerRefresh {
    Rebuild,
    RecheckVisibility,
    Unchanged,
}

/// The refresh owed for the revisions last seen and the world's current
/// ones.
pub open spec fn refresh_spec(
    known_power: Option<u64>,
    known_foreground: u64,
    power_revision: u64,
    foreground_revision: u64,
) -> PowerRefresh {
    if known_power != Some(power_revision) {
        PowerRefresh::Rebuild
    } else if known_foreground != foreground_revision {
        PowerRefresh::RecheckVisibility
    } else {
        PowerRefresh::Unchanged
    }
}

/// Decides what an update of the power system does.
pub fn power_refresh(
    known_power: Option<u64>,
    known_foreground: u64,
    power_revision: u64,
    foreground_revision: u64,
) -> (refresh: PowerRefresh)
    ensures
        refresh == refresh_spec(known_power, known_foreground, power_revision, foreground_revision),
{
    let rebuild = match known_power {
        Some(known) => known != power_revision,
        None => true,
    };
    if rebuild {
        PowerRefresh::Rebuild
    } else if known_foreground != foreground_revision {
        PowerRefresh::RecheckVisibility
    } else {
        PowerRefresh::Unchanged
    }
}

/// Whether a candidate's sight line crosses a changed tile.
pub open spec fn crosses_change(crossed: Seq<TilePos>, changes: Seq<TilePos>) -> bool {
    exists|a: int, b: int| 0 <= a < crossed.len() && 0 <= b < changes.len() && crossed[a] == changes[b]
}

/// Whether candidate `i` needs its sight line checked again: every one
/// when the changed tiles are not known, otherwise those crossing one.
pub open spec fn is_dirty(crossed: Seq<Vec<TilePos>>, changes: Option<Seq<TilePos>>, i: usize) -> bool {
    match changes {
        None => true,
        Some(changes) => crosses_change(crossed[i as int]@, changes),
    }
}

/// The candidates, in index order, whose sight lines need checking again.
pub open spec fn dirty_spec(crossed: Seq<Vec<TilePos>>, changes: Option<Seq<TilePos>>) -> Seq<usize> {
    Seq::new(crossed.len(), |i: int| i as usize).filter(|i: usize| is_dirty(crossed, changes, i))
}

fn crosses(crossed: &Vec<TilePos>, changes: &[TilePos]) -> (found: bool)
    ensures
        found == crosses_change(crossed@, changes@),
{
    let mut a: usize = 0;
    while a < crossed.len()
        invariant
            a <= crossed@.len(),
            forall|x: int, y: int| 0 <= x < a && 0 <= y < changes@.len() ==> crossed@[x] != changes@[y],
        decreases crossed@.len() - a,
    {
        let mut b: usize = 0;
        while b < changes.len()
            invariant
                a < crossed@.len(),
                b <= changes@.len(),
                forall|y: int| 0 <= y < b ==> crossed@[a as int] != changes@[y],
            decreases changes@.len() - b,
        {
            if crossed[a] == changes[b] {
                return true;
            }
            b = b + 1;
        }
        a = a + 1;
    }
    false
}

/// The candidates whose sight lines need checking again after the
/// foreground changed: those crossing a changed tile, or all of them when
/// the changes are not known. `crossed` gives each candidate's crossed
/// tiles.
pub fn dirty_candidates(crossed: &[Vec<TilePos>], changes: Option<&[TilePos]>) -> (dirty: Vec<usize>)
    ensures
        dirty@ == dirty_spec(
            crossed@,
            match changes {
                Some(c) => Some(c@),
                None => None,
            },
        ),
        forall|a: int, b: int| 0 <= a < b < dirty@.len() ==> dirty@[a] < dirty@[b],
        listed_once(dirty@),
        forall|a: int| 0 <= a < dirty@.len() ==> #[trigger] dirty@[a] < crossed@.len(),
{
    let ghost known = match changes {
        Some(c) => Some(c@),
        None => None::<Seq<TilePos>>,
    };
    let ghost all = Seq::new(crossed@.len(), |i: int| i as usize);
    let ghost keep = |i: usize| is_dirty(crossed@, known, i);
    let mut dirty: Vec<usize> = Vec::new();
    let mut i: usize = 0;
    while i < crossed.len()
        invariant
            i <= crossed@.len(),
            all == Seq::new(crossed@.len(), |i: int| i as usize),
            keep == (|i: usize| is_dirty(crossed@, known, i)),
            known == match changes {
                Some(c) => Some(c@),
                None => None::<Seq<TilePos>>,
            },
            dirty@ == all.take(i as int).filter(keep),
            forall|a: int, b: int| 0 <= a < b < dirty@.len() ==> dirty@[a] < dirty@[b],
            forall|a: int| 0 <= a < dirty@.len() ==> #[trigger] dirty@[a] < i,
        decreases crossed@.len() - i,
    {
        let is = match changes {
            None => true,
            Some(c) => crosses(&crossed[i], c),
        };
        proof {
            reveal(Seq::filter);
            assert(all.take(i + 1).drop_last() =~= all.take(i as int));
            assert(all.take(i + 1).last() == i);
            assert(keep(i) == is);
        }
        if is {
            dirty.push(i);
        }
        i = i + 1;
    }
    proof {
        assert(all.take(i as int) =~= all);
    }
    dirty
}

/// Whether no candidate is listed twice.
pub open spec fn listed_once(dirty: Seq<usize>) -> bool {
    forall|a: int, b: int| 0 <= a < b < dirty.len() ==> dirty[a] != dirty[b]
}

/// The visibility flags after candidate `dirty[p]` takes the fresh value
/// `fresh[p]`, for each position `p`.
pub open spec fn rechecked(visible: Seq<bool>, dirty: Seq<usize>, fresh: Seq<bool>) -> Seq<bool> {
    Seq::new(
        visible.len(),
        |i: int|
            if exists|p: int| 0 <= p < dirty.len() && dirty[p] == i {
                fresh[choose|p: int| 0 <= p < dirty.len() && dirty[p] == i]
            } else {
                visible[i]
            },
    )
}

/// Stores the fresh sight-line results of the dirty candidates and says
/// whether any of them changed.
pub fn recheck_visibility(visible: &mut Vec<bool>, dirty: &[usize], fresh: &[bool]) -> (changed: bool)
    requires
        dirty@.len() == fresh@.len(),
        listed_once(dirty@),
        forall|p: int| 0 <= p < dirty@.len() ==> #[trigger] dirty@[p] < old(visible)@.len(),
    ensures
        final(visible)@ == rechecked(old(visible)@, dirty@, fresh@),
        changed == exists|p: int| 0 <= p < dirty@.len() && old(visible)@[dirty@[p] as int] != #[trigger] fresh@[p],
{
    let ghost start = visible@;
    let mut changed = false;
    let mut p: usize = 0;
    while p < dirty.len()
        invariant
            p <= dirty@.len(),
            dirty@.len() == fresh@.len(),
            listed_once(dirty@),
            forall|q: int| 0 <= q < dirty@.len() ==> #[trigger] dirty@[q] < start.len(),
            visible@.len() == start.len(),
            forall|q: int| 0 <= q < p ==> visible@[#[trigger] dirty@[q] as int] == fresh@[q],
            forall|i: int|
                0 <= i < start.len() && !(exists|q: int| 0 <= q < p && dirty@[q] == i) ==> #[trigger] visible@[i]
                    == start[i],
            changed == exists|q: int| 0 <= q < p && start[dirty@[q] as int] != #[trigger] fresh@[q],
        decreases dirty@.len() - p,
    {
        let index = dirty[p];
        proof {
            assert(!(exists|q: int| 0 <= q < p && dirty@[q] == index));
        }
        let before = visible[index];
        if before != fresh[p] {
            changed = true;
        }
        visible.set(index, fresh[p]);
        proof {
            assert(before == start[index as int]);
            assert forall|q: int| 0 <= q < p + 1 implies visible@[#[trigger] dirty@[q] as int] == fresh@[q] by {
                if q < p {
                    assert(dirty@[q] != index);
                }
            }
            assert forall|i: int|
                0 <= i < start.len() && !(exists|q: int| 0 <= q < p + 1 && dirty@[q] == i) implies #[trigger] visible@[i]
                == start[i] by {
                assert(i != index);
            }
            assert(changed == exists|q: int| 0 <= q < p + 1 && start[dirty@[q] as int] != #[trigger] fresh@[q]) by {
                if before != fresh@[p as int] {
                    assert(start[dirty@[p as int] as int] != fresh@[p as int]);
                }
            }
        }
        p = p + 1;
    }
    proof {
        assert forall|i: int| 0 <= i < start.len() implies #[trigger] visible@[i] == rechecked(start, dirty@, fresh@)[i] by {
            if exists|q: int| 0 <= q < dirty@.len() && dirty@[q] == i {
                let q = choose|q: int| 0 <= q < dirty@.len() && dirty@[q] == i;
                assert(visible@[dirty@[q] as int] == fresh@[q]);
            }
        }
        assert(visible@ =~= rechecked(start, dirty@, fresh@));
    }
    changed
}

/// Whether an update changed the power connections: always after a
/// rebuild, after a recheck only when a sight line changed, never
/// otherwise.
pub fn connections_changed(refresh: PowerRefresh, visibility_changed: bool) -> (changed: bool)
    ensures
        changed == (refresh == PowerRefresh::Rebuild || (refresh == PowerRefresh::RecheckVisibility
            && visibility_changed)),
{
    match refresh {
        PowerRefresh::Rebuild => true,
        PowerRefresh::RecheckVisibility => visibility_changed,
        PowerRefresh::Unchanged => false,
    }
}

} // verus!
