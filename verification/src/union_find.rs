use vstd::prelude::*;

verus! {

/// The representative reached from `index` by following parent links while
/// each step climbs to a strictly greater height no higher than `bound`.
pub open spec fn root_of(parents: Seq<usize>, heights: Seq<nat>, bound: nat, index: int) -> int
    decreases bound - heights[index],
{
    if 0 <= index < parents.len() && parents[index] != index && 0 <= parents[index] < parents.len()
        && heights[parents[index] as int] > heights[index] && heights[parents[index] as int] <= bound {
        root_of(parents, heights, bound, parents[index] as int)
    } else {
        index
    }
}

/// Disjoint sets over `0..len` with union by rank and path compression.
pub struct UnionFind {
    parents: Vec<usize>,
    ranks: Vec<u8>,
    heights: Ghost<Seq<nat>>,
    bound: Ghost<nat>,
}

impl UnionFind {
    pub closed spec fn len(&self) -> nat {
        self.parents@.len()
    }

    /// Every parent link climbs to a strictly greater height.
    pub closed spec fn wf(&self) -> bool {
        &&& self.ranks@.len() == self.parents@.len()
        &&& self.heights@.len() == self.parents@.len()
        &&& forall|i: int| 0 <= i < self.parents@.len() ==> #[trigger] self.parents@[i] < self.parents@.len()
        &&& forall|i: int| 0 <= i < self.parents@.len() ==> #[trigger] self.heights@[i] <= self.bound@
        &&& forall|i: int|
            0 <= i < self.parents@.len() && #[trigger] self.parents@[i] != i ==> self.heights@[self.parents@[i] as int]
                > self.heights@[i]
    }

    /// The representative of the set holding `index`.
    pub closed spec fn find(&self, index: int) -> int {
        root_of(self.parents@, self.heights@, self.bound@, index)
    }

    proof fn lemma_find(&self, index: int)
        requires
            self.wf(),
            0 <= index < self.len(),
        ensures
            0 <= self.find(index) < self.len(),
            self.parents@[self.find(index)] == self.find(index),
            self.find(index) == index || self.heights@[self.find(index)] > self.heights@[index],
            self.parents@[index] != index ==> self.find(index) == self.find(self.parents@[index] as int),
        decreases self.bound@ - self.heights@[index],
    {
        let parent = self.parents@[index] as int;
        if parent != index {
            assert(self.heights@[parent] > self.heights@[index]);
            assert(self.heights@[parent] <= self.bound@);
            self.lemma_find(parent);
        }
    }

    /// Every representative is an element.
    pub proof fn lemma_find_in_range(&self, index: int)
        requires
            self.wf(),
            0 <= index < self.len(),
        ensures
            0 <= self.find(index) < self.len(),
    {
        self.lemma_find(index);
    }

    /// Sets of single elements `0..length`.
    pub fn new(length: usize) -> (sets: Self)
        ensures
            sets.wf(),
            sets.len() == length,
            forall|i: int| 0 <= i < length ==> #[trigger] sets.find(i) == i,
    {
        let mut parents: Vec<usize> = Vec::new();
        let mut ranks: Vec<u8> = Vec::new();
        while parents.len() < length
            invariant
                parents@.len() <= length,
                ranks@.len() == parents@.len(),
                forall|i: int| 0 <= i < parents@.len() ==> #[trigger] parents@[i] == i,
            decreases length - parents@.len(),
        {
            parents.push(parents.len());
            ranks.push(0);
        }
        let sets = UnionFind {
            parents,
            ranks,
            heights: Ghost(Seq::new(length as nat, |i: int| 0nat)),
            bound: Ghost(0nat),
        };
        sets
    }

    /// Re-pointing `index` straight at its own representative changes no
    /// element's representative.
    proof fn lemma_compress(&self, other: &Self, index: int, element: int)
        requires
            self.wf(),
            0 <= index < self.len(),
            0 <= element < self.len(),
            other.parents@ == self.parents@.update(index, self.find(index) as usize),
            other.heights@ == self.heights@,
            other.bound@ == self.bound@,
            other.ranks@.len() == self.ranks@.len(),
        ensures
            other.wf(),
            other.find(element) == self.find(element),
        decreases self.bound@ - self.heights@[element],
    {
        self.lemma_find(index);
        let root = self.find(index);
        assert forall|i: int| 0 <= i < other.parents@.len() && #[trigger] other.parents@[i] != i implies other.heights@[other.parents@[i] as int]
            > other.heights@[i] by {
            if i == index {
                assert(root != index);
            }
        }
        let parent = self.parents@[element] as int;
        if element == index {
            if root != index {
                assert(other.parents@[root] == root);
                assert(other.find(root) == root);
                assert(other.find(index) == other.find(root));
            }
        } else if parent != element {
            self.lemma_find(element);
            self.lemma_compress(other, index, parent);
            assert(other.parents@[element] == self.parents@[element]);
        }
    }

    /// The representative of the set holding `index`; compresses the path.
    pub fn root(&mut self, index: usize) -> (root: usize)
        requires
            old(self).wf(),
            index < old(self).len(),
        ensures
            final(self).wf(),
            final(self).len() == old(self).len(),
            root == old(self).find(index as int),
            root < old(self).len(),
            forall|i: int| 0 <= i < old(self).len() ==> #[trigger] final(self).find(i) == old(self).find(i),
    {
        self.find_root(index)
    }

    fn find_root(&mut self, index: usize) -> (root: usize)
        requires
            old(self).wf(),
            index < old(self).len(),
        ensures
            final(self).wf(),
            final(self).len() == old(self).len(),
            root == old(self).find(index as int),
            root < old(self).len(),
            forall|i: int| 0 <= i < old(self).len() ==> #[trigger] final(self).find(i) == old(self).find(i),
            final(self).heights@ == old(self).heights@,
            final(self).bound@ == old(self).bound@,
            final(self).ranks@ == old(self).ranks@,
            forall|i: int|
                0 <= i < old(self).len() && old(self).heights@[i] < old(self).heights@[index as int]
                    ==> #[trigger] final(self).parents@[i] == old(self).parents@[i],
        decreases old(self).bound@ - old(self).heights@[index as int],
    {
        proof {
            old(self).lemma_find(index as int);
        }
        let parent = self.parents[index];
        if parent != index {
            proof {
                assert(self.heights@[parent as int] > self.heights@[index as int]);
            }
            let root = self.find_root(parent);
            let ghost middle = *self;
            proof {
                middle.lemma_find(index as int);
                assert(middle.parents@[index as int] == parent);
                assert(middle.find(index as int) == middle.find(parent as int));
            }
            self.parents.set(index, root);
            proof {
                assert forall|i: int| 0 <= i < old(self).len() implies #[trigger] self.find(i) == old(self).find(i) by {
                    middle.lemma_compress(self, index as int, i);
                }
                middle.lemma_compress(self, index as int, index as int);
            }
            root
        } else {
            index
        }
    }

    /// Merges the sets holding `left` and `right`; the deeper tree absorbs
    /// the shallower one.
    pub fn join(&mut self, left: usize, right: usize)
        requires
            old(self).wf(),
            left < old(self).len(),
            right < old(self).len(),
        ensures
            final(self).wf(),
            final(self).len() == old(self).len(),
            final(self).find(left as int) == final(self).find(right as int),
            final(self).find(left as int) == old(self).find(left as int) || final(self).find(left as int) == old(
                self,
            ).find(right as int),
            forall|i: int|
                0 <= i < old(self).len() ==> #[trigger] final(self).find(i) == if old(self).find(i) == old(
                    self,
                ).find(left as int) || old(self).find(i) == old(self).find(right as int) {
                    final(self).find(left as int)
                } else {
                    old(self).find(i)
                },
    {
        let mut left_root = self.find_root(left);
        let mut right_root = self.find_root(right);
        let ghost settled = *self;
        proof {
            settled.lemma_find(left as int);
            settled.lemma_find(right as int);
        }
        if left_root == right_root {
            return ;
        }
        if self.ranks[left_root] < self.ranks[right_root] {
            let swapped = left_root;
            left_root = right_root;
            right_root = swapped;
        }
        self.parents.set(right_root, left_root);
        let left_rank = self.ranks[left_root];
        if left_rank == self.ranks[right_root] {
            self.ranks.set(left_root, left_rank.saturating_add(1));
        }
        let ghost raised = vstd::math::max(
            settled.heights@[left_root as int] as int,
            (settled.heights@[right_root as int] + 1) as int,
        ) as nat;
        self.heights = Ghost(settled.heights@.update(left_root as int, raised));
        self.bound = Ghost(vstd::math::max(settled.bound@ as int, raised as int) as nat);
        proof {
            assert(self.wf()) by {
                assert forall|i: int| 0 <= i < self.parents@.len() && #[trigger] self.parents@[i] != i implies self.heights@[self.parents@[i] as int]
                    > self.heights@[i] by {
                    if i != right_root as int {
                        assert(self.parents@[i] == settled.parents@[i]);
                        assert(i != left_root as int);
                    }
                }
                assert forall|i: int| 0 <= i < self.parents@.len() implies #[trigger] self.heights@[i] <= self.bound@ by {
                    assert(settled.heights@[i] <= settled.bound@);
                }
            }
            assert forall|i: int| 0 <= i < old(self).len() implies #[trigger] self.find(i) == if settled.find(i)
                == left_root as int || settled.find(i) == right_root as int {
                left_root as int
            } else {
                settled.find(i)
            } by {
                settled.lemma_joined(self, left_root as int, right_root as int, i);
            }
        }
    }

    /// After linking one representative under another (and raising the
    /// absorbing representative's height), the absorbed set's elements lead
    /// to the absorbing representative and nothing else moves.
    proof fn lemma_joined(&self, other: &Self, winner: int, loser: int, element: int)
        requires
            self.wf(),
            other.wf(),
            0 <= winner < self.len(),
            0 <= loser < self.len(),
            0 <= element < self.len(),
            winner != loser,
            self.parents@[winner] == winner,
            self.parents@[loser] == loser,
            other.parents@ == self.parents@.update(loser, winner as usize),
            other.heights@.len() == self.heights@.len(),
            forall|i: int| 0 <= i < self.len() && i != winner ==> #[trigger] other.heights@[i] == self.heights@[i],
            other.heights@[winner] >= self.heights@[winner],
            other.bound@ >= self.bound@,
        ensures
            other.find(element) == if self.find(element) == winner || self.find(element) == loser {
                winner
            } else {
                self.find(element)
            },
        decreases self.bound@ - self.heights@[element],
    {
        self.lemma_find(element);
        other.lemma_find(element);
        let parent = self.parents@[element] as int;
        if parent != element {
            self.lemma_find(parent);
            self.lemma_joined(other, winner, loser, parent);
            assert(element != loser);
            assert(other.parents@[element] == self.parents@[element]);
        } else if element == loser {
            other.lemma_find(winner);
            assert(other.parents@[winner] == winner);
        }
    }
}

/// Class labels after merging the classes of both ends of each edge in
/// turn.
pub open spec fn labels_after(count: nat, edges: Seq<(int, int)>) -> Seq<int>
    decreases edges.len(),
{
    if edges.len() == 0 {
        Seq::new(count, |i: int| i)
    } else {
        let labels = labels_after(count, edges.drop_last());
        let left = edges.last().0;
        let right = edges.last().1;
        Seq::new(
            count,
            |i: int|
                if labels[i] == labels[left] || labels[i] == labels[right] {
                    labels[left]
                } else {
                    labels[i]
                },
        )
    }
}

/// Joining two elements of disjoint sets merges their classes, as merging
/// the labels of the joined ends does.
pub proof fn lemma_merge_classes(before: Seq<int>, after: Seq<int>, labels: Seq<int>, left: int, right: int)
    requires
        before.len() == labels.len(),
        after.len() == labels.len(),
        0 <= left < labels.len(),
        0 <= right < labels.len(),
        forall|i: int, j: int|
            0 <= i < labels.len() && 0 <= j < labels.len() ==> (#[trigger] before[i] == #[trigger] before[j]) == (
            labels[i] == labels[j]),
        after[left] == before[left] || after[left] == before[right],
        forall|i: int|
            0 <= i < labels.len() ==> #[trigger] after[i] == if before[i] == before[left] || before[i] == before[right] {
                after[left]
            } else {
                before[i]
            },
    ensures
        ({
            let merged = Seq::new(
                labels.len(),
                |i: int|
                    if labels[i] == labels[left] || labels[i] == labels[right] {
                        labels[left]
                    } else {
                        labels[i]
                    },
            );
            forall|i: int, j: int|
                0 <= i < labels.len() && 0 <= j < labels.len() ==> (#[trigger] after[i] == #[trigger] after[j]) == (
                merged[i] == merged[j])
        }),
{
    let merged = Seq::new(
        labels.len(),
        |i: int|
            if labels[i] == labels[left] || labels[i] == labels[right] {
                labels[left]
            } else {
                labels[i]
            },
    );
    assert forall|i: int, j: int| 0 <= i < labels.len() && 0 <= j < labels.len() implies (#[trigger] after[i]
        == #[trigger] after[j]) == (merged[i] == merged[j]) by {
        assert((before[i] == before[left]) == (labels[i] == labels[left]));
        assert((before[i] == before[right]) == (labels[i] == labels[right]));
        assert((before[j] == before[left]) == (labels[j] == labels[left]));
        assert((before[j] == before[right]) == (labels[j] == labels[right]));
        assert((before[i] == before[j]) == (labels[i] == labels[j]));
    }
}

/// The classes of a set family, by element.
pub open spec fn classes_of(sets: UnionFind, count: nat) -> Seq<int> {
    Seq::new(count, |i: int| sets.find(i))
}

/// Whether the sets have the same classes as the labels.
pub open spec fn same_classes(sets: UnionFind, labels: Seq<int>) -> bool {
    forall|i: int, j: int|
        0 <= i < labels.len() && 0 <= j < labels.len() ==> (#[trigger] sets.find(i) == #[trigger] sets.find(j)) == (
        labels[i] == labels[j])
}


/// Merging more edges keeps together what was together.
pub proof fn lemma_labels_extend(count: nat, edges: Seq<(int, int)>, more: Seq<(int, int)>)
    ensures
        forall|x: int, y: int|
            0 <= x < count && 0 <= y < count && labels_after(count, edges)[x] == labels_after(count, edges)[y]
                ==> #[trigger] labels_after(count, edges + more)[x] == #[trigger] labels_after(count, edges + more)[y],
    decreases more.len(),
{
    if more.len() == 0 {
        assert(edges + more =~= edges);
    } else {
        let init = more.drop_last();
        lemma_labels_extend(count, edges, init);
        let all = edges + more;
        assert(all.drop_last() =~= edges + init);
        let previous = labels_after(count, edges + init);
        let left = all.last().0;
        let right = all.last().1;
        assert(labels_after(count, all) == Seq::new(
            count,
            |i: int|
                if previous[i] == previous[left] || previous[i] == previous[right] {
                    previous[left]
                } else {
                    previous[i]
                },
        ));
        assert forall|x: int, y: int|
            0 <= x < count && 0 <= y < count && labels_after(count, edges)[x] == labels_after(count, edges)[y]
                implies #[trigger] labels_after(count, all)[x] == #[trigger] labels_after(count, all)[y] by {
            assert(previous[x] == previous[y]);
        }
    }
}

} // verus!
