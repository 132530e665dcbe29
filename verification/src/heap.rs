//! An indexed binary min-heap over the indices of a cost array: the index with
//! the smallest cost is at the root, and of two equal costs the one with the
//! smaller age comes first.
//!
//! `nodes[slot]` is the index that sits in a slot and `pos[index]` the slot
//! of a queued index. The occupied slots are `0 ..= last`; `last == size`
//! says that none is.

use vstd::prelude::*;
use crate::array::{min_value, IntArray};
use crate::priority_queue::{
    comes_first, derived_age, none_queued, parent_ok, ElemStatus, PriorityQueue, QueueError,
    QueueModel,
};

verus! {

/// The state of a heap.
pub ghost struct HeapModel {
    /// The cost of each index.
    pub values: Seq<i64>,
    /// The index in each slot; `size` in a slot that was vacated.
    pub nodes: Seq<usize>,
    /// The slot of each queued index; `size` for an index that was popped.
    pub pos: Seq<usize>,
    /// The last occupied slot, or `size` where the heap is empty.
    pub last: int,
    /// The number of indices.
    pub size: int,
    /// The status of each index.
    pub status: Seq<ElemStatus>,
    /// The age of each index.
    pub ages: Seq<i64>,
}

/// An operation of a heap: `insert` of an index with a parent, `pop`,
/// `remove` of an index, or `update_value` of an index to a cost with a
/// parent.
pub ghost enum HeapStep {
    Insert(usize, i64),
    Pop,
    Remove(usize),
    Update(usize, i64, i64),
}

/// The slot above `at`; the root is its own parent.
pub open spec fn parent_of(at: int) -> int {
    if at <= 0 {
        0
    } else {
        (at - 1) / 2
    }
}

impl HeapModel {
    /// The number of occupied slots.
    pub open spec fn count(self) -> int {
        if self.last == self.size {
            0
        } else {
            self.last + 1
        }
    }

    /// Index `i` sorts before index `j`: its cost is smaller, or equal with a
    /// smaller age.
    pub open spec fn before(self, i: usize, j: usize) -> bool {
        self.values[i as int] < self.values[j as int] || (self.values[i as int]
            == self.values[j as int] && self.ages[i as int] < self.ages[j as int])
    }

    /// One cost, slot, status and age for each index, and as many slots.
    pub open spec fn shaped(self) -> bool {
        &&& 1 <= self.size <= isize::MAX
        &&& self.values.len() == self.size
        &&& self.nodes.len() == self.size
        &&& self.pos.len() == self.size
        &&& self.status.len() == self.size
        &&& self.ages.len() == self.size
        &&& 0 <= self.last <= self.size
    }

    /// The occupied slots hold the queued indices, each once, and `pos` finds
    /// each of them.
    pub open spec fn linked(self) -> bool {
        &&& forall|s: int|
            0 <= s < self.count() ==> (#[trigger] self.nodes[s]) < self.size
                && self.status[self.nodes[s] as int] == ElemStatus::IN
                && self.pos[self.nodes[s] as int] == s
        &&& forall|i: int|
            0 <= i < self.size && #[trigger] self.status[i] == ElemStatus::IN ==> self.pos[i]
                < self.count() && self.nodes[self.pos[i] as int] == i
    }

    /// The index in slot `s` does not sort before the one in the slot above.
    pub open spec fn above_holds(self, s: int) -> bool {
        !self.before(self.nodes[s], self.nodes[parent_of(s)])
    }

    /// The heap property: along every branch the costs do not decrease, and
    /// among equal costs the ages do not.
    pub open spec fn heap_ordered(self) -> bool {
        forall|s: int| 0 < s < self.count() ==> #[trigger] self.above_holds(s)
    }

    /// The heap property but for the slot `at` and the one above it, as
    /// after the index in `at` has moved forward in the order.
    pub open spec fn ordered_but_above(self, at: int) -> bool {
        &&& forall|s: int| 0 < s < self.count() && s != at ==> #[trigger] self.above_holds(s)
        &&& forall|c: int|
            0 < c < self.count() && parent_of(c) == at ==> !self.before(
                #[trigger] self.nodes[c],
                self.nodes[parent_of(at)],
            )
    }

    /// The heap property but for the slot `at` and those below it, as after
    /// the index in `at` has moved back in the order.
    pub open spec fn ordered_but_below(self, at: int) -> bool {
        &&& forall|s: int|
            0 < s < self.count() && parent_of(s) != at ==> #[trigger] self.above_holds(s)
        &&& forall|c: int|
            0 < c < self.count() && parent_of(c) == at && at > 0 ==> !self.before(
                #[trigger] self.nodes[c],
                self.nodes[parent_of(at)],
            )
    }

    /// The state with the indices of slots `i` and `j` exchanged.
    pub open spec fn swapped(self, i: int, j: int) -> Self {
        let nodes = self.nodes.update(i, self.nodes[j]).update(j, self.nodes[i]);
        HeapModel {
            nodes,
            pos: self.pos.update(nodes[i] as int, i as usize).update(nodes[j] as int, j as usize),
            ..self
        }
    }

    /// The state after the index in slot `at` has risen as far as it sorts
    /// before the index above it.
    pub open spec fn sifted_up(self, at: int) -> Self
        decreases at,
    {
        if at > 0 && self.before(self.nodes[at], self.nodes[parent_of(at)]) {
            self.swapped(parent_of(at), at).sifted_up(parent_of(at))
        } else {
            self
        }
    }

    /// The slot among `at` and the two below it whose index sorts first; of
    /// the two below, the left one where neither sorts before the other.
    pub open spec fn least_of_three(self, at: int) -> int {
        let left = 2 * at + 1;
        let right = 2 * at + 2;
        let next = if left <= self.last && self.before(self.nodes[left], self.nodes[at]) {
            left
        } else {
            at
        };
        if right <= self.last && self.before(self.nodes[right], self.nodes[next]) {
            right
        } else {
            next
        }
    }

    /// The state after the index in slot `at` has sunk as far as an index
    /// below it sorts before it.
    pub open spec fn sifted_down(self, at: int) -> Self
        decreases self.size - at,
    {
        let next = self.least_of_three(at);
        if 0 <= at < next < self.size {
            self.swapped(next, at).sifted_down(next)
        } else {
            self
        }
    }

    /// The state with the age of `index` taken from `parent_index`.
    pub open spec fn with_age(self, index: usize, parent_index: i64) -> Self {
        HeapModel {
            ages: self.ages.update(index as int, derived_age(self.ages, parent_index) as i64),
            ..self
        }
    }

    /// The state with the root marked `POPPED` and gone, and the index of the
    /// last slot in its place, before that index sinks.
    pub open spec fn root_cut(self) -> Self {
        let index = self.nodes[0];
        let marked = HeapModel {
            status: self.status.update(index as int, ElemStatus::POPPED),
            ..self
        };
        let exchanged = marked.swapped(0, self.last);
        HeapModel {
            pos: exchanged.pos.update(index as int, self.size as usize),
            nodes: exchanged.nodes.update(self.last, self.size as usize),
            last: if self.last == 0 {
                self.size
            } else {
                self.last - 1
            },
            ..exchanged
        }
    }

    /// The state after the root has been taken out and marked `POPPED`:
    /// the index of the last slot takes its place and sinks.
    pub open spec fn without_root(self) -> Self {
        if self.last == 0 {
            self.root_cut()
        } else {
            self.root_cut().sifted_down(0)
        }
    }

    /// The state with a key for `index` that sorts before every other: the
    /// least cost with an age below all ages.
    pub open spec fn forced(self, index: usize) -> Self {
        HeapModel {
            values: self.values.update(index as int, i64::MIN),
            ages: self.ages.update(index as int, -1i64),
            ..self
        }
    }

    /// Exchanging two occupied slots keeps the slots and the indices linked.
    pub proof fn lemma_swapped(self, i: int, j: int)
        requires
            self.shaped(),
            self.linked(),
            0 <= i < self.count(),
            0 <= j < self.count(),
        ensures
            self.swapped(i, j).shaped(),
            self.swapped(i, j).linked(),
    {
        let after = self.swapped(i, j);
        assert(self.nodes[i] < self.size && self.nodes[j] < self.size);
        assert forall|s: int| 0 <= s < after.count() implies (#[trigger] after.nodes[s]) < after.size
            && after.status[after.nodes[s] as int] == ElemStatus::IN
            && after.pos[after.nodes[s] as int] == s by {
            assert(self.nodes[s] < self.size);
            if s != i && s != j {
                assert(self.pos[self.nodes[s] as int] == s);
                assert(self.pos[self.nodes[i] as int] == i);
                assert(self.pos[self.nodes[j] as int] == j);
            }
        }
        assert forall|k: int|
            0 <= k < after.size && #[trigger] after.status[k] == ElemStatus::IN implies after.pos[k]
            < after.count() && after.nodes[after.pos[k] as int] == k by {
            assert(self.status[k] == ElemStatus::IN);
        }
    }

    /// Rising restores the heap property, and moves nothing but the indices
    /// along the branch. An index that sorts before every other ends at the
    /// root.
    pub proof fn lemma_sifted_up(self, at: int)
        requires
            self.shaped(),
            self.linked(),
            0 <= at < self.count(),
            self.ordered_but_above(at),
        ensures
            self.sifted_up(at).shaped(),
            self.sifted_up(at).linked(),
            self.sifted_up(at).heap_ordered(),
            self.sifted_up(at).values == self.values,
            self.sifted_up(at).status == self.status,
            self.sifted_up(at).ages == self.ages,
            self.sifted_up(at).last == self.last,
            self.sifted_up(at).size == self.size,
            (forall|s: int|
                0 <= s < self.count() && s != at ==> self.before(
                    self.nodes[at],
                    #[trigger] self.nodes[s],
                )) ==> self.sifted_up(at).nodes[0] == self.nodes[at],
        decreases at,
    {
        let up = parent_of(at);
        if at > 0 && self.before(self.nodes[at], self.nodes[up]) {
            let after = self.swapped(up, at);
            self.lemma_swapped(up, at);
            assert forall|s: int| 0 < s < after.count() && s != up implies #[trigger] after.above_holds(
                s,
            ) by {
                if s == at {
                } else if parent_of(s) == at {
                    assert(!self.before(self.nodes[s], self.nodes[parent_of(at)]));
                } else if parent_of(s) == up {
                    assert(self.above_holds(s));
                } else {
                    assert(self.above_holds(s));
                }
            }
            assert forall|c: int| 0 < c < after.count() && parent_of(c) == up implies !after.before(
                #[trigger] after.nodes[c],
                after.nodes[parent_of(up)],
            ) by {
                if up > 0 {
                    assert(self.above_holds(up));
                }
                if c != at {
                    assert(self.above_holds(c));
                }
            }
            after.lemma_sifted_up(up);
            if forall|s: int|
                0 <= s < self.count() && s != at ==> self.before(
                    self.nodes[at],
                    #[trigger] self.nodes[s],
                ) {
                assert forall|s: int| 0 <= s < after.count() && s != up implies after.before(
                    after.nodes[up],
                    #[trigger] after.nodes[s],
                ) by {
                    if s == at {
                        assert(self.before(self.nodes[at], self.nodes[up]));
                    } else {
                        assert(self.before(self.nodes[at], self.nodes[s]));
                    }
                }
            }
        } else {
            if at > 0 {
                assert(self.above_holds(at));
            }
            assert forall|s: int| 0 < s < self.count() implies #[trigger] self.above_holds(s) by {}
            if at > 0 && (forall|s: int|
                0 <= s < self.count() && s != at ==> self.before(
                    self.nodes[at],
                    #[trigger] self.nodes[s],
                )) {
                assert(self.before(self.nodes[at], self.nodes[up]));
            }
        }
    }

    /// Sinking restores the heap property, and moves nothing but the indices
    /// along the branch.
    pub proof fn lemma_sifted_down(self, at: int)
        requires
            self.shaped(),
            self.linked(),
            0 <= at < self.count(),
            self.ordered_but_below(at),
        ensures
            self.sifted_down(at).shaped(),
            self.sifted_down(at).linked(),
            self.sifted_down(at).heap_ordered(),
            self.sifted_down(at).values == self.values,
            self.sifted_down(at).status == self.status,
            self.sifted_down(at).ages == self.ages,
            self.sifted_down(at).last == self.last,
            self.sifted_down(at).size == self.size,
        decreases self.size - at,
    {
        let next = self.least_of_three(at);
        let left = 2 * at + 1;
        let right = 2 * at + 2;
        if 0 <= at < next < self.size {
            let after = self.swapped(next, at);
            self.lemma_swapped(next, at);
            assert forall|s: int|
                0 < s < after.count() && parent_of(s) != next implies #[trigger] after.above_holds(
                s,
            ) by {
                if s == next {
                } else if s == at {
                    assert(!self.before(self.nodes[next], self.nodes[parent_of(at)]));
                } else if parent_of(s) == at {
                    assert(s == left || s == right);
                } else {
                    assert(self.above_holds(s));
                }
            }
            assert forall|c: int|
                0 < c < after.count() && parent_of(c) == next implies !after.before(
                #[trigger] after.nodes[c],
                after.nodes[parent_of(next)],
            ) by {
                assert(self.above_holds(c));
            }
            after.lemma_sifted_down(next);
        } else {
            assert forall|s: int| 0 < s < self.count() implies #[trigger] self.above_holds(s) by {
                if parent_of(s) == at {
                    assert(s == left || s == right);
                }
            }
        }
    }

    /// The heap property in costs and ages: the cost in an occupied slot is
    /// not below the cost in the slot above it, and where the two costs are
    /// equal the age is not below either.
    pub proof fn lemma_heap_property(self, s: int)
        requires
            self.shaped(),
            self.linked(),
            self.heap_ordered(),
            0 < s < self.count(),
        ensures
            self.values[self.nodes[parent_of(s)] as int] <= self.values[self.nodes[s] as int],
            self.values[self.nodes[parent_of(s)] as int] == self.values[self.nodes[s] as int]
                ==> self.ages[self.nodes[parent_of(s)] as int] <= self.ages[self.nodes[s] as int],
    {
        assert(self.above_holds(s));
    }

    /// In a heap no slot holds an index that sorts before the root's.
    pub proof fn lemma_root_is_least(self, s: int)
        requires
            self.shaped(),
            self.linked(),
            self.heap_ordered(),
            0 <= s < self.count(),
        ensures
            !self.before(self.nodes[s], self.nodes[0]),
        decreases s,
    {
        if s > 0 {
            assert(self.above_holds(s));
            self.lemma_root_is_least(parent_of(s));
        }
    }
}

impl HeapModel {
    /// The state of a new heap over `values`: nothing is queued, slot `i` and
    /// index `i` name each other, and every age is zero.
    pub open spec fn fresh(values: Seq<i64>) -> Self {
        HeapModel {
            values,
            nodes: Seq::new(values.len(), |i: int| i as usize),
            pos: Seq::new(values.len(), |i: int| i as usize),
            last: values.len() as int,
            size: values.len() as int,
            status: Seq::new(values.len(), |i: int| ElemStatus::OUT),
            ages: Seq::new(values.len(), |i: int| 0i64),
        }
    }

    /// No age is negative.
    pub open spec fn ages_counted(self) -> bool {
        forall|i: int| 0 <= i < self.ages.len() ==> 0 <= #[trigger] self.ages[i]
    }

    /// The state with `index` in the first free slot, before it rises.
    pub open spec fn placed(self, index: usize) -> Self {
        let slot = self.count();
        HeapModel {
            nodes: self.nodes.update(slot, index),
            status: self.status.update(index as int, ElemStatus::IN),
            pos: self.pos.update(index as int, slot as usize),
            last: slot,
            ..self
        }
    }

    /// The state with a new cost for `index`, before it moves.
    pub open spec fn revalued(self, index: usize, value: i64) -> Self {
        HeapModel { values: self.values.update(index as int, value), ..self }
    }

    /// What taking the root out leaves: a heap of the other queued indices.
    pub proof fn lemma_without_root(self)
        requires
            self.shaped(),
            self.linked(),
            self.heap_ordered(),
            self.count() > 0,
        ensures
            self.without_root().shaped(),
            self.without_root().linked(),
            self.without_root().heap_ordered(),
            self.without_root().values == self.values,
            self.without_root().ages == self.ages,
            self.without_root().size == self.size,
            self.without_root().count() == self.count() - 1,
            self.nodes[0] < self.size,
            self.without_root().status == self.status.update(
                self.nodes[0] as int,
                ElemStatus::POPPED,
            ),
            self.nodes[self.last] < self.size,
            self.root_cut().shaped(),
            self.root_cut().linked(),
    {
        let index = self.nodes[0];
        let moved = self.nodes[self.last];
        assert(self.nodes[0] < self.size);
        assert(moved < self.size);
        assert(self.pos[index as int] == 0);
        assert(self.pos[moved as int] == self.last);
        let short = self.root_cut();
        assert(short.shaped());
        assert forall|s: int| 0 <= s < short.count() implies (#[trigger] short.nodes[s])
            < short.size && short.status[short.nodes[s] as int] == ElemStatus::IN
            && short.pos[short.nodes[s] as int] == s by {
            assert(self.nodes[s] < self.size);
            assert(self.pos[self.nodes[s] as int] == s);
        }
        assert forall|i: int|
            0 <= i < short.size && #[trigger] short.status[i] == ElemStatus::IN implies short.pos[i]
            < short.count() && short.nodes[short.pos[i] as int] == i by {
            assert(self.status[i] == ElemStatus::IN);
        }
        if self.last > 0 {
            assert forall|s: int|
                0 < s < short.count() && parent_of(s) != 0 implies #[trigger] short.above_holds(
                s,
            ) by {
                assert(self.above_holds(s));
            }
            short.lemma_sifted_down(0);
        }
    }

    /// What a successful `insert` leaves: a heap with `index` queued at the
    /// age that its parent gives it.
    pub proof fn lemma_inserted(self, index: usize, parent_index: i64)
        requires
            self.inv(),
            index < self.size,
            self.status[index as int] != ElemStatus::IN,
            parent_ok(self.ages, parent_index),
        ensures
            !self.full(),
            self.count() < self.size,
            self.inserted(index, parent_index).inv(),
            self.inserted(index, parent_index).values == self.values,
            self.inserted(index, parent_index).status == self.status.update(
                index as int,
                ElemStatus::IN,
            ),
            self.inserted(index, parent_index).ages == self.ages.update(
                index as int,
                derived_age(self.ages, parent_index) as i64,
            ),
            self.with_age(index, parent_index).placed(index).shaped(),
            self.with_age(index, parent_index).placed(index).linked(),
    {
        self.lemma_room(index);
        let aged = self.with_age(index, parent_index);
        let placed = aged.placed(index);
        let slot = self.count();
        assert forall|s: int| 0 <= s < placed.count() implies (#[trigger] placed.nodes[s])
            < placed.size && placed.status[placed.nodes[s] as int] == ElemStatus::IN
            && placed.pos[placed.nodes[s] as int] == s by {
            if s != slot {
                assert(self.nodes[s] < self.size);
            }
        }
        assert forall|i: int|
            0 <= i < placed.size && #[trigger] placed.status[i] == ElemStatus::IN implies placed.pos[i]
            < placed.count() && placed.nodes[placed.pos[i] as int] == i by {
            if i != index {
                assert(self.status[i] == ElemStatus::IN);
            }
        }
        assert forall|s: int| 0 < s < placed.count() && s != slot implies #[trigger] placed.above_holds(
            s,
        ) by {
            assert(self.above_holds(s));
            assert(self.nodes[s] < self.size);
            assert(self.nodes[parent_of(s)] < self.size);
        }
        placed.lemma_sifted_up(slot);
    }

    /// A heap that does not hold every index has a free slot.
    pub proof fn lemma_room(self, index: usize)
        requires
            self.shaped(),
            self.linked(),
            index < self.size,
            self.status[index as int] != ElemStatus::IN,
        ensures
            self.count() < self.size,
            !self.full(),
    {
        if self.count() >= self.size {
            // every slot is occupied, by an index other than `index`: one too many
            let slots = Set::new(|s: int| 0 <= s < self.size);
            let others = Set::new(|i: int| 0 <= i < self.size && i != index);
            vstd::set_lib::lemma_int_range(0, self.size);
            assert(slots =~= vstd::set_lib::set_int_range(0, self.size));
            assert(others =~= vstd::set_lib::set_int_range(0, self.size).remove(index as int));
            assert(others.len() == self.size - 1);
            let taken = slots.map(|s: int| self.nodes[s] as int);
            assert(taken.subset_of(others)) by {
                assert forall|i: int| taken.contains(i) implies others.contains(i) by {
                    let s = choose|s: int| slots.contains(s) && i == self.nodes[s] as int;
                    assert(self.nodes[s] < self.size);
                }
            }
            vstd::set_lib::lemma_len_subset(taken, others);
            assert(vstd::relations::injective_on(|s: int| self.nodes[s] as int, slots)) by {
                assert forall|a: int, b: int|
                    slots.contains(a) && slots.contains(b) && self.nodes[a] as int
                        == self.nodes[b] as int implies a == b by {
                    assert(self.pos[self.nodes[a] as int] == a);
                    assert(self.pos[self.nodes[b] as int] == b);
                }
            }
            vstd::set_lib::lemma_map_size(slots, taken, |s: int| self.nodes[s] as int);
            assert(false);
        }
    }

    /// What a successful `pop` leaves, and that the popped index came first.
    pub proof fn lemma_popped(self)
        requires
            self.inv(),
        ensures
            self.popped().inv(),
            self.popped().values == self.values,
            self.popped().ages == self.ages,
            self.count() == 0 <==> none_queued(self.status),
            self.count() == 0 ==> self.popped() == self,
            self.count() > 0 ==> {
                &&& self.front() < self.size
                &&& self.status[self.front() as int] == ElemStatus::IN
                &&& self.popped().status == self.status.update(
                    self.front() as int,
                    ElemStatus::POPPED,
                )
                &&& comes_first(self.values, self.ages, self.status, self.front())
            },
    {
        if self.count() > 0 {
            self.lemma_without_root();
            assert(self.nodes[0] < self.size);
            assert forall|j: int|
                0 <= j < self.status.len() && self.status[j] == ElemStatus::IN implies self.values[self.front() as int]
                < #[trigger] self.values[j] || (self.values[self.front() as int] == self.values[j]
                && self.ages[self.front() as int] <= self.ages[j]) by {
                self.lemma_root_is_least(self.pos[j] as int);
            }
        } else {
            assert forall|i: int| 0 <= i < self.status.len() implies self.status[i]
                != ElemStatus::IN by {}
        }
    }

    /// What a successful `remove` leaves: a heap of the other queued indices,
    /// with the costs and ages of before.
    pub proof fn lemma_removed(self, index: usize)
        requires
            self.inv(),
            index < self.size,
        ensures
            self.removed(index).inv(),
            self.removed(index).values == self.values,
            self.removed(index).ages == self.ages,
            self.status[index as int] == ElemStatus::IN ==> {
                &&& self.forced(index).shaped()
                &&& self.forced(index).linked()
                &&& self.pos[index as int] < self.count()
                &&& self.forced(index).sifted_up(self.pos[index as int] as int).shaped()
                &&& self.forced(index).sifted_up(self.pos[index as int] as int).linked()
                &&& self.forced(index).sifted_up(self.pos[index as int] as int).heap_ordered()
                &&& self.forced(index).sifted_up(self.pos[index as int] as int).count() > 0
                &&& self.forced(index).sifted_up(self.pos[index as int] as int).nodes[0] == index
                &&& self.removed(index).status == self.status.update(
                    index as int,
                    ElemStatus::OUT,
                )
            },
    {
        if self.status[index as int] == ElemStatus::IN {
            let at = self.pos[index as int] as int;
            let forced = self.forced(index);
            assert(self.nodes[at] == index);
            assert forall|s: int| 0 <= s < forced.count() && s != at implies forced.before(
                forced.nodes[at],
                #[trigger] forced.nodes[s],
            ) by {
                assert(self.nodes[s] < self.size);
                assert(self.pos[self.nodes[s] as int] == s);
            }
            assert forall|s: int| 0 < s < forced.count() && s != at implies #[trigger] forced.above_holds(
                s,
            ) by {
                assert(self.above_holds(s));
                assert(self.nodes[s] < self.size);
                assert(self.pos[self.nodes[s] as int] == s);
                assert(self.nodes[parent_of(s)] < self.size);
                assert(self.pos[self.nodes[parent_of(s)] as int] == parent_of(s));
            }
            assert forall|c: int|
                0 < c < forced.count() && parent_of(c) == at implies !forced.before(
                #[trigger] forced.nodes[c],
                forced.nodes[parent_of(at)],
            ) by {
                assert(self.above_holds(c));
                assert(self.nodes[c] < self.size);
                assert(self.pos[self.nodes[c] as int] == c);
                if at > 0 {
                    assert(self.above_holds(at));
                    assert(self.nodes[parent_of(at)] < self.size);
                    assert(self.pos[self.nodes[parent_of(at)] as int] == parent_of(at));
                }
            }
            forced.lemma_sifted_up(at);
            let raised = forced.sifted_up(at);
            raised.lemma_without_root();
            let taken = raised.without_root();
            let after = self.removed(index);
            assert(after.values =~= self.values);
            assert(after.ages =~= self.ages);
            assert(after.status =~= self.status.update(index as int, ElemStatus::OUT));
            assert forall|s: int| 0 <= s < after.count() implies (#[trigger] after.nodes[s])
                < after.size && after.status[after.nodes[s] as int] == ElemStatus::IN
                && after.pos[after.nodes[s] as int] == s by {
                assert(taken.nodes[s] < taken.size);
            }
            assert forall|i: int|
                0 <= i < after.size && #[trigger] after.status[i] == ElemStatus::IN implies after.pos[i]
                < after.count() && after.nodes[after.pos[i] as int] == i by {
                assert(taken.status[i] == ElemStatus::IN);
            }
            assert forall|s: int| 0 < s < after.count() implies #[trigger] after.above_holds(s) by {
                assert(taken.above_holds(s));
                assert(taken.nodes[s] < taken.size);
                assert(taken.nodes[parent_of(s)] < taken.size);
            }
        }
    }

    /// What `update_value` leaves: a heap with the new cost, in which the
    /// index, if it is queued and its cost changed, has the age that its parent
    /// gives it.
    pub proof fn lemma_updated(self, index: usize, value: i64, parent_index: i64)
        requires
            self.inv(),
            index < self.size,
            parent_ok(self.ages, parent_index),
        ensures
            self.updated(index, value, parent_index).inv(),
            self.updated(index, value, parent_index).values == self.values.update(
                index as int,
                value,
            ),
            self.updated(index, value, parent_index).status == self.status,
            self.updated(index, value, parent_index).ages == if self.status[index as int]
                == ElemStatus::IN && value != self.values[index as int] {
                self.ages.update(index as int, derived_age(self.ages, parent_index) as i64)
            } else {
                self.ages
            },
            self.status[index as int] == ElemStatus::IN ==> self.pos[index as int] < self.count()
                && self.revalued(index, value).with_age(index, parent_index).shaped()
                && self.revalued(index, value).with_age(index, parent_index).linked(),
    {
        let set = self.revalued(index, value);
        let previous = self.values[index as int];
        if self.status[index as int] == ElemStatus::IN && value != previous {
            let at = self.pos[index as int] as int;
            let aged = set.with_age(index, parent_index);
            assert(self.nodes[at] == index);
            assert forall|s: int| 0 <= s < aged.count() && s != at implies aged.nodes[s] != index
                && (#[trigger] aged.nodes[s]) < aged.size by {
                assert(self.nodes[s] < self.size);
                assert(self.pos[self.nodes[s] as int] == s);
            }
            if value < previous {
                assert forall|s: int| 0 < s < aged.count() && s != at implies #[trigger] aged.above_holds(
                    s,
                ) by {
                    assert(self.above_holds(s));
                    assert(aged.nodes[s] != index);
                }
                assert forall|c: int|
                    0 < c < aged.count() && parent_of(c) == at implies !aged.before(
                    #[trigger] aged.nodes[c],
                    aged.nodes[parent_of(at)],
                ) by {
                    assert(self.above_holds(c));
                    assert(aged.nodes[c] != index);
                    if at > 0 {
                        assert(self.above_holds(at));
                        assert(aged.nodes[parent_of(at)] != index);
                    }
                }
                aged.lemma_sifted_up(at);
            } else {
                assert forall|s: int|
                    0 < s < aged.count() && parent_of(s) != at implies #[trigger] aged.above_holds(
                    s,
                ) by {
                    assert(self.above_holds(s));
                    if s != at {
                        assert(aged.nodes[s] != index);
                        assert(aged.nodes[parent_of(s)] != index);
                    } else {
                        assert(aged.nodes[parent_of(s)] != index);
                    }
                }
                assert forall|c: int|
                    0 < c < aged.count() && parent_of(c) == at && at > 0 implies !aged.before(
                    #[trigger] aged.nodes[c],
                    aged.nodes[parent_of(at)],
                ) by {
                    assert(self.above_holds(c));
                    assert(self.above_holds(at));
                    assert(aged.nodes[c] != index);
                    assert(aged.nodes[parent_of(at)] != index);
                }
                aged.lemma_sifted_down(at);
            }
        } else if self.status[index as int] == ElemStatus::IN {
            assert(set.values =~= self.values);
        } else {
            assert forall|s: int| 0 <= s < set.count() implies set.nodes[s] != index && (
            #[trigger] set.nodes[s]) < set.size by {
                assert(self.nodes[s] < self.size);
            }
            assert forall|s: int| 0 < s < set.count() implies #[trigger] set.above_holds(s) by {
                assert(self.above_holds(s));
                assert(set.nodes[s] != index);
                assert(set.nodes[parent_of(s)] != index);
            }
        }
    }
}

impl HeapModel {
    /// The cost in slot `s` is not below the cost in the slot above it, and
    /// where the two costs are equal the age is not below either.
    pub open spec fn not_below_parent(self, s: int) -> bool {
        let up = self.nodes[parent_of(s)] as int;
        let down = self.nodes[s] as int;
        self.values[up] <= self.values[down] && (self.values[up] == self.values[down]
            ==> self.ages[up] <= self.ages[down])
    }

    /// The heap takes `step` in this state: the index is one of the heap's,
    /// one to insert is not queued, and a parent's age can still grow by one.
    pub open spec fn admits(self, step: HeapStep) -> bool {
        match step {
            HeapStep::Insert(index, parent_index) => index < self.size
                && self.status[index as int] != ElemStatus::IN && parent_ok(
                self.ages,
                parent_index,
            ),
            HeapStep::Pop => true,
            HeapStep::Remove(index) => index < self.size,
            HeapStep::Update(index, value, parent_index) => index < self.size && parent_ok(
                self.ages,
                parent_index,
            ),
        }
    }

    /// The state that `step` leaves.
    pub open spec fn after(self, step: HeapStep) -> Self {
        match step {
            HeapStep::Insert(index, parent_index) => self.inserted(index, parent_index),
            HeapStep::Pop => self.popped(),
            HeapStep::Remove(index) => self.removed(index),
            HeapStep::Update(index, value, parent_index) => self.updated(
                index,
                value,
                parent_index,
            ),
        }
    }

    /// The heap takes each of `steps` in the state that the steps before it
    /// leave.
    pub open spec fn admits_all(self, steps: Seq<HeapStep>) -> bool
        decreases steps.len(),
    {
        steps.len() == 0 || (self.admits(steps[0]) && self.after(steps[0]).admits_all(
            steps.drop_first(),
        ))
    }

    /// The state that `steps` leave, taken in their order.
    pub open spec fn after_all(self, steps: Seq<HeapStep>) -> Self
        decreases steps.len(),
    {
        if steps.len() == 0 {
            self
        } else {
            self.after(steps[0]).after_all(steps.drop_first())
        }
    }

    /// After any sequence of `insert`, `pop`, `remove` and `update_value` the
    /// heap is a heap: in every occupied slot but the root the cost is not
    /// below the cost in the slot above, and of two equal costs the age is not
    /// below either.
    pub proof fn lemma_heap_order_is_kept(self, steps: Seq<HeapStep>)
        requires
            self.inv(),
            self.admits_all(steps),
        ensures
            self.after_all(steps).inv(),
            forall|s: int|
                0 < s < self.after_all(steps).count() ==> #[trigger] self.after_all(
                    steps,
                ).not_below_parent(s),
        decreases steps.len(),
    {
        if steps.len() > 0 {
            match steps[0] {
                HeapStep::Insert(index, parent_index) => {
                    self.lemma_inserted(index, parent_index);
                },
                HeapStep::Pop => {
                    self.lemma_popped();
                },
                HeapStep::Remove(index) => {
                    self.lemma_removed(index);
                },
                HeapStep::Update(index, value, parent_index) => {
                    self.lemma_updated(index, value, parent_index);
                },
            }
            self.after(steps[0]).lemma_heap_order_is_kept(steps.drop_first());
        } else {
            assert forall|s: int| 0 < s < self.count() implies #[trigger] self.not_below_parent(
                s,
            ) by {
                self.lemma_heap_property(s);
            }
        }
    }
}

impl QueueModel for HeapModel {
    open spec fn inv(self) -> bool {
        &&& self.shaped()
        &&& self.linked()
        &&& self.heap_ordered()
        &&& self.ages_counted()
    }

    open spec fn values(self) -> Seq<i64> {
        self.values
    }

    open spec fn statuses(self) -> Seq<ElemStatus> {
        self.status
    }

    open spec fn ages(self) -> Seq<i64> {
        self.ages
    }

    /// The last slot is occupied.
    open spec fn full(self) -> bool {
        self.last + 1 == self.size
    }

    /// A heap holds an index once: `insert` takes one that is not queued. On
    /// a full heap it fails, whatever the index.
    open spec fn accepts(self, index: usize) -> bool {
        self.full() || self.status[index as int] != ElemStatus::IN
    }

    open spec fn holds_key(value: i64) -> bool {
        true
    }

    open spec fn ordered(self) -> bool {
        true
    }

    /// A heap keeps nothing of an index that is not queued.
    open spec fn vacant(self, index: usize) -> bool {
        true
    }

    open spec fn settled(self) -> Self {
        self
    }

    /// The index takes its age, goes into the first free slot and rises.
    open spec fn inserted(self, index: usize, parent_index: i64) -> Self {
        self.with_age(index, parent_index).placed(index).sifted_up(self.count())
    }

    /// The root.
    open spec fn front(self) -> usize {
        self.nodes[0]
    }

    open spec fn popped(self) -> Self {
        if self.count() == 0 {
            self
        } else {
            self.without_root()
        }
    }

    /// The index is given a key that sorts before every other, rises to the
    /// root and is taken out there; then it gets its cost and age back.
    open spec fn removed(self, index: usize) -> Self {
        if self.status[index as int] != ElemStatus::IN {
            self
        } else {
            let taken = self.forced(index).sifted_up(self.pos[index as int] as int).without_root();
            HeapModel {
                values: taken.values.update(index as int, self.values[index as int]),
                ages: taken.ages.update(index as int, self.ages[index as int]),
                status: taken.status.update(index as int, ElemStatus::OUT),
                ..taken
            }
        }
    }

    /// A queued index whose cost changes takes its age anew and rises or
    /// sinks; one whose cost stays, or that is not queued, keeps age and
    /// place.
    open spec fn updated(self, index: usize, value: i64, parent_index: i64) -> Self {
        let set = self.revalued(index, value);
        if self.status[index as int] == ElemStatus::IN {
            if value < self.values[index as int] {
                set.with_age(index, parent_index).sifted_up(self.pos[index as int] as int)
            } else if value > self.values[index as int] {
                set.with_age(index, parent_index).sifted_down(self.pos[index as int] as int)
            } else {
                set
            }
        } else {
            set
        }
    }

    /// Slot `i` and index `i` name each other again, and every age is zero.
    open spec fn cleared(self) -> Self {
        HeapModel {
            values: self.values,
            nodes: Seq::new(self.size as nat, |i: int| i as usize),
            pos: Seq::new(self.size as nat, |i: int| i as usize),
            last: self.size,
            size: self.size,
            status: Seq::new(self.size as nat, |i: int| ElemStatus::OUT),
            ages: Seq::new(self.size as nat, |i: int| 0i64),
        }
    }

    proof fn lemma_sizes(self) {
    }

    proof fn lemma_accepts(self, index: usize) {
        self.lemma_room(index);
    }

    proof fn lemma_cleared_is_empty(self) {
    }
}

/// A heap over the indices of the cost array that it holds.
pub struct Heap {
    values: IntArray,
    nodes: Vec<usize>,
    pos: Vec<usize>,
    last: usize,
    size: usize,
    pub status: Vec<ElemStatus>,
    ages: Vec<i64>,
}

impl View for Heap {
    type V = HeapModel;

    closed spec fn view(&self) -> HeapModel {
        HeapModel {
            values: self.values@,
            nodes: self.nodes@,
            pos: self.pos@,
            last: self.last as int,
            size: self.size as int,
            status: self.status@,
            ages: self.ages@,
        }
    }
}

/// A vector of `n` copies of `x`.
fn filled<T: Copy>(x: T, n: usize) -> (v: Vec<T>)
    ensures
        v@.len() == n,
        forall|i: int| 0 <= i < n ==> v@[i] == x,
{
    let mut v: Vec<T> = Vec::with_capacity(n);
    while v.len() < n
        invariant
            v@.len() <= n,
            forall|i: int| 0 <= i < v@.len() ==> v@[i] == x,
        decreases n - v@.len(),
    {
        v.push(x);
    }
    v
}

impl Heap {
    /// An empty heap over `values`.
    pub fn new(values: IntArray) -> (heap: Self)
        requires
            values@.len() >= 1,
        ensures
            heap@.inv(),
            heap@ == HeapModel::fresh(values@),
    {
        let size = values.len();
        let nodes = filled(0usize, size);
        let pos = filled(0usize, size);
        let status = filled(ElemStatus::OUT, size);
        let ages = filled(0i64, size);
        let mut heap = Heap { values, nodes, pos, last: size, size, status, ages };
        heap.reset();
        heap
    }

    /// Gives the cost array back, with the costs as the heap leaves them.
    pub fn into_values(self) -> (values: IntArray)
        ensures
            values@ == self@.values,
    {
        self.values
    }

    /// The number of indices.
    pub fn size(&self) -> (n: usize)
        ensures
            n == self@.size,
    {
        self.size
    }

    /// The last occupied slot, or `size()` where the heap is empty.
    pub fn last(&self) -> (slot: usize)
        ensures
            slot == self@.last,
    {
        self.last
    }

    /// The slot that `pos` records for `index`.
    pub fn pos(&self, index: usize) -> (slot: usize)
        requires
            index < self@.pos.len(),
        ensures
            slot == self@.pos[index as int],
    {
        self.pos[index]
    }

    fn try_update_age(&mut self, index: usize, parent_index: i64)
        requires
            old(self)@.shaped(),
            index < old(self)@.size,
            parent_ok(old(self)@.ages, parent_index),
        ensures
            final(self)@ == old(self)@.with_age(index, parent_index),
    {
        if parent_index >= 0 {
            let parent_age = self.ages[parent_index as usize];
            self.ages[index] = parent_age + 1;
        } else {
            self.ages[index] = 0;
        }
    }

    fn move_up(&mut self, index: usize, parent_index: i64)
        requires
            old(self)@.shaped(),
            old(self)@.linked(),
            index < old(self)@.size,
            old(self)@.pos[index as int] < old(self)@.count(),
            parent_ok(old(self)@.ages, parent_index),
        ensures
            final(self)@ == old(self)@.with_age(index, parent_index).sifted_up(
                old(self)@.pos[index as int] as int,
            ),
    {
        self.try_update_age(index, parent_index);
        self.move_up_from_position(self.pos[index]);
    }

    fn move_down(&mut self, index: usize, parent_index: i64)
        requires
            old(self)@.shaped(),
            old(self)@.linked(),
            index < old(self)@.size,
            old(self)@.pos[index as int] < old(self)@.count(),
            parent_ok(old(self)@.ages, parent_index),
        ensures
            final(self)@ == old(self)@.with_age(index, parent_index).sifted_down(
                old(self)@.pos[index as int] as int,
            ),
    {
        self.try_update_age(index, parent_index);
        self.move_down_from_position(self.pos[index]);
    }

    fn parent(&self, i: usize) -> (up: usize)
        ensures
            up == parent_of(i as int),
    {
        if i == 0 {
            0
        } else {
            (i - 1) / 2
        }
    }

    fn left_child(&self, i: usize) -> (left: usize)
        requires
            i < isize::MAX,
        ensures
            left == 2 * i + 1,
    {
        2 * i + 1
    }

    fn right_child(&self, i: usize) -> (right: usize)
        requires
            i < isize::MAX,
        ensures
            right == 2 * i + 2,
    {
        2 * i + 2
    }

    fn swap(&mut self, i: usize, j: usize)
        requires
            old(self)@.shaped(),
            i < old(self)@.size,
            j < old(self)@.size,
            old(self)@.nodes[i as int] < old(self)@.size,
            old(self)@.nodes[j as int] < old(self)@.size,
        ensures
            final(self)@ == old(self)@.swapped(i as int, j as int),
    {
        let tmp = self.nodes[i];
        let other = self.nodes[j];
        self.nodes[i] = other;
        self.nodes[j] = tmp;
        let node_i = self.nodes[i];
        self.pos[node_i] = i;
        let node_j = self.nodes[j];
        self.pos[node_j] = j;
        assert(self@ =~= old(self)@.swapped(i as int, j as int));
    }

    fn lower(&self, i: usize, j: usize) -> (first: bool)
        requires
            self@.shaped(),
            i < self@.size,
            j < self@.size,
            self@.nodes[i as int] < self@.size,
            self@.nodes[j as int] < self@.size,
        ensures
            first == self@.before(self@.nodes[i as int], self@.nodes[j as int]),
    {
        let node_i = self.nodes[i];
        let node_j = self.nodes[j];
        (self.values.get(node_i) < self.values.get(node_j)) || (self.values.get(node_i)
            == self.values.get(node_j) && self.ages[node_i] < self.ages[node_j])
    }

    fn greater(&self, i: usize, j: usize) -> (later: bool)
        requires
            self@.shaped(),
            i < self@.size,
            j < self@.size,
            self@.nodes[i as int] < self@.size,
            self@.nodes[j as int] < self@.size,
        ensures
            later == self@.before(self@.nodes[j as int], self@.nodes[i as int]),
    {
        let node_i = self.nodes[i];
        let node_j = self.nodes[j];
        (self.values.get(node_i) > self.values.get(node_j)) || (self.values.get(node_i)
            == self.values.get(node_j) && self.ages[node_i] > self.ages[node_j])
    }

    // moves towards the root, where the smaller costs are
    fn move_up_from_position(&mut self, pos: usize)
        requires
            old(self)@.shaped(),
            old(self)@.linked(),
            pos < old(self)@.count(),
        ensures
            final(self)@ == old(self)@.sifted_up(pos as int),
    {
        let mut current = pos;
        let mut parent = self.parent(current);
        assert(self@.nodes[current as int] < self@.size);
        assert(self@.nodes[parent as int] < self@.size);
        while self.greater(parent, current)
            invariant
                self@.shaped(),
                self@.linked(),
                current < self@.count(),
                parent == parent_of(current as int),
                self@.nodes[current as int] < self@.size,
                self@.nodes[parent as int] < self@.size,
                self@.sifted_up(current as int) == old(self)@.sifted_up(pos as int),
            decreases current,
        {
            proof {
                self@.lemma_swapped(parent as int, current as int);
            }
            self.swap(parent, current);
            current = parent;
            parent = self.parent(current);
            assert(self@.nodes[current as int] < self@.size);
            assert(self@.nodes[parent as int] < self@.size);
        }
    }

    fn move_down_from_position(&mut self, pos: usize)
        requires
            old(self)@.shaped(),
            old(self)@.linked(),
            pos < old(self)@.count(),
        ensures
            final(self)@ == old(self)@.sifted_down(pos as int),
        decreases old(self)@.size - pos,
    {
        let mut next = pos;
        let left = self.left_child(pos);
        let right = self.right_child(pos);
        assert(self@.nodes[pos as int] < self@.size);
        if left <= self.last {
            assert(self@.nodes[left as int] < self@.size);
            if self.lower(left, next) {
                next = left;
            }
        }
        if right <= self.last {
            assert(self@.nodes[right as int] < self@.size);
            assert(self@.nodes[next as int] < self@.size);
            if self.lower(right, next) {
                next = right;
            }
        }
        assert(next == self@.least_of_three(pos as int));
        if next != pos {
            proof {
                self@.lemma_swapped(next as int, pos as int);
            }
            self.swap(next, pos);
            self.move_down_from_position(next);
        }
    }

    /// Takes the root out and marks it `POPPED`.
    fn pop_root(&mut self) -> (index: usize)
        requires
            old(self)@.shaped(),
            old(self)@.linked(),
            old(self)@.heap_ordered(),
            old(self)@.count() > 0,
        ensures
            final(self)@ == old(self)@.without_root(),
            index == old(self)@.nodes[0],
    {
        proof {
            old(self)@.lemma_without_root();
        }
        let index = self.nodes[0];
        self.status[index] = ElemStatus::POPPED;
        self.swap(0, self.last);

        // what was taken out is no longer found
        self.pos[index] = self.size;
        let last = self.last;
        self.nodes[last] = self.size;

        if self.last == 0 {
            self.last = self.size;
            assert(self@ =~= old(self)@.root_cut());
        } else {
            self.last -= 1;
            assert(self@ =~= old(self)@.root_cut());
            self.move_down_from_position(0);
        }
        index
    }
}

impl PriorityQueue for Heap {
    fn is_full(&self) -> (full: bool) {
        self.last + 1 == self.size
    }

    fn is_empty(&mut self) -> (empty: bool) {
        proof {
            self@.lemma_popped();
        }
        self.last == self.size
    }

    fn insert(&mut self, index: usize, parent_index: i64) -> (res: Result<(), QueueError>)
        ensures
            !old(self)@.full() ==> final(self)@.ages() == old(self)@.ages().update(
                index as int,
                derived_age(old(self)@.ages(), parent_index) as i64,
            ),
    {
        if self.is_full() {
            return Err(QueueError::Full);
        }
        proof {
            old(self)@.lemma_inserted(index, parent_index);
        }
        self.try_update_age(index, parent_index);

        if self.last == self.size {
            self.last = 0;
        } else {
            self.last += 1;
        }

        let last = self.last;
        self.nodes[last] = index;
        self.status[index] = ElemStatus::IN;
        self.pos[index] = last;
        assert(self@ =~= old(self)@.with_age(index, parent_index).placed(index));
        self.move_up_from_position(last);

        Ok(())
    }

    fn pop(&mut self) -> (res: Result<usize, QueueError>) {
        proof {
            old(self)@.lemma_popped();
        }
        if self.is_empty() {
            return Err(QueueError::Empty);
        }
        let index = self.pop_root();
        Ok(index)
    }

    fn remove(&mut self, index: usize) -> (res: Result<(), QueueError>) {
        proof {
            old(self)@.lemma_removed(index);
        }
        if self.status[index] != ElemStatus::IN {
            return Err(QueueError::NotQueued);
        }
        let value = self.values.get(index);
        let age = self.ages[index];
        self.values.set(index, min_value());
        self.ages[index] = -1;
        assert(self@ =~= old(self)@.forced(index));
        self.move_up_from_position(self.pos[index]);
        proof {
            self@.lemma_without_root();
        }

        self.pop_root();

        self.values.set(index, value);
        self.ages[index] = age;
        self.status[index] = ElemStatus::OUT;
        assert(self@ =~= old(self)@.removed(index));

        Ok(())
    }

    fn update_value(&mut self, index: usize, value: i64, parent_index: i64)
        ensures
            final(self)@.ages() == if old(self)@.statuses()[index as int] == ElemStatus::IN
                && value != old(self)@.values()[index as int] {
                old(self)@.ages().update(
                    index as int,
                    derived_age(old(self)@.ages(), parent_index) as i64,
                )
            } else {
                old(self)@.ages()
            },
    {
        proof {
            old(self)@.lemma_updated(index, value, parent_index);
        }
        let prev_value = self.values.get(index);

        self.values.set(index, value);
        assert(self@ =~= old(self)@.revalued(index, value));

        if self.status[index] == ElemStatus::IN {
            if value < prev_value {
                self.move_up(index, parent_index)
            } else if value > prev_value {
                self.move_down(index, parent_index)
            }
        }
    }

    fn reset(&mut self) {
        self.last = self.size;
        let mut i: usize = 0;
        while i < self.size
            invariant
                i <= self.size,
                self@.shaped(),
                self.size == old(self).size,
                self.last == self.size,
                self.values == old(self).values,
                forall|j: int|
                    0 <= j < i ==> self.nodes@[j] == j && self.pos@[j] == j && self.status@[j]
                        == ElemStatus::OUT && self.ages@[j] == 0,
            decreases self.size - i,
        {
            self.nodes[i] = i;
            self.pos[i] = i;
            self.status[i] = ElemStatus::OUT;
            self.ages[i] = 0;
            i += 1;
        }
        proof {
            assert(self@.nodes =~= old(self)@.cleared().nodes);
            assert(self@.pos =~= old(self)@.cleared().pos);
            assert(self@.status =~= old(self)@.cleared().status);
            assert(self@.ages =~= old(self)@.cleared().ages);
            old(self)@.lemma_cleared_is_empty();
        }
    }

    #[inline(always)]
    fn get_value(&self, index: usize) -> (value: i64) {
        return self.values.get(index);
    }

    #[inline(always)]
    fn get_status(&self, index: usize) -> (status: ElemStatus) {
        return self.status[index];
    }
}

} // verus!
