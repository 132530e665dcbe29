//! A priority queue for costs that are small non-negative integers: one
//! first-in, first-out bucket for each cost.
//!
//! A queued index whose new cost is not smaller than the old one is taken
//! out of its bucket and queued again, at the back of the bucket of the new
//! cost. An index whose cost goes down is queued again in the bucket of its
//! new cost and is not taken out of the old one. What stays behind is
//! screened out by status when it comes to the front. Once the cost of such
//! an index goes up again past a bucket in which it still sits, the queue is
//! no longer `ordered`: that index is popped from the lower bucket, before
//! its turn.

use vstd::prelude::*;
use std::collections::VecDeque;
use crate::array::{to_usize, IntArray};
use crate::priority_queue::{
    comes_first, none_queued, ElemStatus, PriorityQueue, QueueError, QueueModel,
};

verus! {

/// The state of a bucket queue.
pub ghost struct BucketModel {
    /// The cost of each index.
    pub values: Seq<i64>,
    /// `buckets[k]` holds, in the order of their arrival, the indices queued
    /// at cost `k`, and what is left of indices that were.
    pub buckets: Seq<Seq<usize>>,
    /// No bucket below this one holds a queued index.
    pub min_priority: int,
    /// No bucket above this one holds a queued index.
    pub max_priority: int,
    /// The status of each index.
    pub status: Seq<ElemStatus>,
}

/// An operation of a bucket queue that lowers no cost: `is_empty`, `pop`,
/// `remove` of an index, or `update_value` of an index to a cost.
pub ghost enum BucketStep {
    IsEmpty,
    Pop,
    Remove(usize),
    Raise(usize, i64),
}

/// `at` is the first place of `x` in `s`.
pub open spec fn is_first_place(s: Seq<usize>, x: usize, at: int) -> bool {
    &&& 0 <= at < s.len()
    &&& s[at] == x
    &&& forall|j: int| 0 <= j < at ==> s[j] != x
}

/// The first place of `x` in `s`, where `s` holds `x`.
pub open spec fn first_place(s: Seq<usize>, x: usize) -> int {
    choose|at: int| is_first_place(s, x, at)
}

/// There is one first place at most.
pub proof fn lemma_first_place(s: Seq<usize>, x: usize, at: int)
    requires
        is_first_place(s, x, at),
    ensures
        first_place(s, x) == at,
{
    let chosen = first_place(s, x);
    assert(is_first_place(s, x, chosen));
    if chosen < at {
        assert(s[chosen] != x);
    }
    if at < chosen {
        assert(s[at] != x);
    }
}

/// `n` empty buckets.
pub open spec fn empty_buckets(n: nat) -> Seq<Seq<usize>> {
    Seq::new(n, |k: int| Seq::<usize>::empty())
}

/// The largest element of a sequence that is not empty.
pub open spec fn max_of(s: Seq<i64>) -> i64
    decreases s.len(),
{
    if s.len() <= 1 {
        s[0]
    } else {
        let rest = max_of(s.drop_last());
        if s.last() > rest {
            s.last()
        } else {
            rest
        }
    }
}

/// `max_of` is an element, and the only one that none exceeds.
pub proof fn lemma_max_of(s: Seq<i64>)
    requires
        s.len() > 0,
    ensures
        s.contains(max_of(s)),
        forall|i: int| 0 <= i < s.len() ==> s[i] <= max_of(s),
        forall|m: i64| s.contains(m) && (forall|i: int| 0 <= i < s.len() ==> s[i] <= m) ==> m == max_of(s),
    decreases s.len(),
{
    if s.len() <= 1 {
        assert(s[0] == max_of(s));
    } else {
        let front = s.drop_last();
        lemma_max_of(front);
        let at = choose|i: int| 0 <= i < front.len() && front[i] == max_of(front);
        assert(s[at] == front[at]);
        assert(s[s.len() - 1] == s.last());
        assert forall|i: int| 0 <= i < s.len() implies s[i] <= max_of(s) by {
            if i < front.len() {
                assert(s[i] == front[i]);
            }
        }
    }
    assert forall|m: i64|
        s.contains(m) && (forall|i: int| 0 <= i < s.len() ==> s[i] <= m) implies m == max_of(s) by {
        let at = choose|i: int| 0 <= i < s.len() && s[i] == max_of(s);
        assert(s[at] <= m);
    }
}

impl BucketModel {
    /// The number of indices.
    pub open spec fn size(self) -> nat {
        self.status.len()
    }

    /// Every entry of a bucket is an index.
    pub open spec fn entries_are_indices(self) -> bool {
        forall|k: int, j: int|
            0 <= k < self.buckets.len() && 0 <= j < self.buckets[k].len() ==> (
            #[trigger] self.buckets[k][j]) < self.size()
    }

    /// The entry at place `j` of bucket `k` is of a queued index.
    pub open spec fn live(self, k: int, j: int) -> bool {
        self.status[self.buckets[k][j] as int] == ElemStatus::IN
    }

    /// Only the buckets between the two scan bounds hold anything.
    pub open spec fn entries_within_bounds(self) -> bool {
        forall|k: int|
            0 <= k < self.buckets.len() && (#[trigger] self.buckets[k]).len() > 0
                ==> self.min_priority <= k <= self.max_priority
    }

    /// The queued index `i` sits in the bucket of its cost.
    pub open spec fn held(self, i: usize) -> bool {
        self.status[i as int] == ElemStatus::IN ==> 0 <= self.values[i as int] < self.buckets.len()
            && self.buckets[self.values[i as int] as int].contains(i)
    }

    /// Every queued index sits in the bucket of its cost.
    pub open spec fn queued_are_held(self) -> bool {
        forall|i: usize| i < self.size() ==> #[trigger] self.held(i)
    }

    /// All of `inv` but that `index` itself sits in the bucket of its cost:
    /// the state between a change of that cost and the index's new entry.
    pub open spec fn inv_but_for(self, index: usize) -> bool {
        &&& self.values.len() == self.status.len()
        &&& 1 <= self.status.len() <= usize::MAX
        &&& self.buckets.len() >= 1
        &&& 0 <= self.min_priority
        &&& 0 <= self.max_priority < self.buckets.len()
        &&& self.entries_are_indices()
        &&& self.entries_within_bounds()
        &&& forall|i: usize| i < self.size() && i != index ==> #[trigger] self.held(i)
    }

    /// No entry of `index` lies in a bucket below the index's cost.
    pub open spec fn none_below(self, index: usize) -> bool {
        forall|k: int, j: int|
            0 <= k < self.buckets.len() && 0 <= j < self.buckets[k].len() && (
            #[trigger] self.buckets[k][j]) == index ==> self.values[index as int] <= k
    }

    /// No entry of a queued index lies in a bucket below the index's cost.
    pub open spec fn tidy(self) -> bool {
        forall|k: int, j: int|
            0 <= k < self.buckets.len() && 0 <= j < self.buckets[k].len() && #[trigger] self.live(
                k,
                j,
            ) ==> self.values[self.buckets[k][j] as int] <= k
    }

    /// The state of a new queue over `values`: nothing is queued, there is
    /// one bucket for each cost up to the largest of `values`, and the lower
    /// scan bound lies past them all.
    pub open spec fn fresh(values: Seq<i64>) -> Self {
        BucketModel {
            values,
            buckets: empty_buckets((max_of(values) + 1) as nat),
            min_priority: max_of(values) + 1,
            max_priority: 0,
            status: Seq::new(values.len(), |i: int| ElemStatus::OUT),
        }
    }

    /// The state with `index` appended to the bucket of its cost, the
    /// buckets grown and the bounds widened as far as that takes.
    pub open spec fn enqueued(self, index: usize) -> Self {
        let bucket = self.values[index as int] as int;
        let grown = if bucket >= self.buckets.len() {
            self.buckets + empty_buckets((bucket + 1 - self.buckets.len()) as nat)
        } else {
            self.buckets
        };
        BucketModel {
            values: self.values,
            buckets: grown.update(bucket, grown[bucket].push(index)),
            min_priority: if bucket < self.min_priority {
                bucket
            } else {
                self.min_priority
            },
            max_priority: if bucket > self.max_priority {
                bucket
            } else {
                self.max_priority
            },
            status: self.status.update(index as int, ElemStatus::IN),
        }
    }

    /// The state with the entry at the front of bucket `min_priority` gone.
    pub open spec fn without_front(self) -> Self {
        BucketModel {
            buckets: self.buckets.update(
                self.min_priority,
                self.buckets[self.min_priority].drop_first(),
            ),
            ..self
        }
    }

    /// The state with the lower bound one bucket higher.
    pub open spec fn advanced(self) -> Self {
        BucketModel { min_priority: self.min_priority + 1, ..self }
    }

    /// What is left to scan: the buckets up to the upper bound, then the
    /// entries of the bucket at the lower bound.
    pub open spec fn front_bucket_len(self) -> nat {
        if 0 <= self.min_priority < self.buckets.len() {
            self.buckets[self.min_priority].len()
        } else {
            0
        }
    }
}

/// A sequence that holds `x` has a first place of `x`.
pub proof fn lemma_first_place_exists(s: Seq<usize>, x: usize)
    requires
        s.contains(x),
    ensures
        is_first_place(s, x, first_place(s, x)),
{
    let some = choose|i: int| 0 <= i < s.len() && s[i] == x;
    lemma_first_place_below(s, x, some, 0);
}

/// A search from `from` upwards meets the first place of `x` no later than
/// at `some`, where `x` stands.
proof fn lemma_first_place_below(s: Seq<usize>, x: usize, some: int, from: int)
    requires
        0 <= from <= some < s.len(),
        s[some] == x,
        forall|j: int| 0 <= j < from ==> s[j] != x,
    ensures
        exists|at: int| is_first_place(s, x, at),
    decreases some - from,
{
    if s[from] == x {
        assert(is_first_place(s, x, from));
    } else {
        lemma_first_place_below(s, x, some, from + 1);
    }
}

impl BucketModel {
    /// Dropping a front entry that is of no queued index keeps the state
    /// sound.
    pub proof fn lemma_without_front(self)
        requires
            self.inv(),
            self.min_priority <= self.max_priority,
            self.buckets[self.min_priority].len() > 0,
            !self.live(self.min_priority, 0),
        ensures
            self.without_front().inv(),
            self.tidy() ==> self.without_front().tidy(),
    {
        let after = self.without_front();
        let low = self.min_priority;
        assert forall|k: int, j: int|
            0 <= k < after.buckets.len() && 0 <= j < after.buckets[k].len() implies (
        #[trigger] after.buckets[k][j]) < after.size() && (after.live(k, j) && self.tidy()
            ==> after.values[after.buckets[k][j] as int] <= k) by {
            if k == low {
                assert(after.buckets[k][j] == self.buckets[k][j + 1]);
                assert(after.live(k, j) == self.live(k, j + 1));
            } else {
                assert(after.buckets[k][j] == self.buckets[k][j]);
                assert(after.live(k, j) == self.live(k, j));
            }
        }
        assert forall|k: int|
            0 <= k < after.buckets.len() && (#[trigger] after.buckets[k]).len() > 0 implies low
            <= k <= after.max_priority by {
            assert(self.buckets[k].len() > 0);
        }
        assert forall|i: usize| i < after.size() implies #[trigger] after.held(i) by {
            assert(self.held(i));
            if self.status[i as int] == ElemStatus::IN {
                let b = self.values[i as int] as int;
                let at = self.buckets[b].index_of(i);
                if b == low {
                    assert(at != 0);
                    assert(after.buckets[b][at - 1] == i);
                } else {
                    assert(after.buckets[b][at] == i);
                }
            }
        }
    }

    /// Moving the lower bound past an empty bucket keeps the state sound.
    pub proof fn lemma_advanced(self)
        requires
            self.inv(),
            self.min_priority <= self.max_priority,
            self.buckets[self.min_priority].len() == 0,
        ensures
            self.advanced().inv(),
            self.tidy() ==> self.advanced().tidy(),
    {
        let after = self.advanced();
        assert forall|k: int, j: int|
            0 <= k < after.buckets.len() && 0 <= j < after.buckets[k].len() implies (
        #[trigger] after.buckets[k][j]) < after.size() && (after.live(k, j) && self.tidy()
            ==> after.values[after.buckets[k][j] as int] <= k) by {
            assert(after.buckets[k][j] == self.buckets[k][j]);
            assert(after.live(k, j) == self.live(k, j));
        }
        assert forall|i: usize| i < after.size() implies #[trigger] after.held(i) by {
            assert(self.held(i));
        }
    }

    /// What `is_empty` leaves: a sound state with the statuses and costs of
    /// before, whose lower bound has not come down, and in which either the
    /// bounds have crossed, where nothing is queued, or the front of the
    /// bucket at the lower bound is queued.
    pub proof fn lemma_settled(self)
        requires
            self.inv(),
        ensures
            self.settled().inv(),
            self.settled().settled() == self.settled(),
            self.settled().values == self.values,
            self.settled().status == self.status,
            self.settled().buckets.len() == self.buckets.len(),
            self.settled().max_priority == self.max_priority,
            self.settled().min_priority >= self.min_priority,
            self.tidy() ==> self.settled().tidy(),
            none_queued(self.status) <==> self.settled().min_priority > self.settled().max_priority,
            !none_queued(self.status) ==> self.settled().buckets[self.settled().min_priority].len()
                > 0 && self.settled().live(self.settled().min_priority, 0),
        decreases self.max_priority + 1 - self.min_priority, self.front_bucket_len(),
    {
        if self.min_priority > self.max_priority {
            assert forall|i: int| 0 <= i < self.status.len() implies self.status[i]
                != ElemStatus::IN by {
                assert(self.held(i as usize));
                if self.status[i] == ElemStatus::IN {
                    assert(self.buckets[self.values[i] as int].len() > 0);
                }
            }
        } else if self.buckets[self.min_priority].len() == 0 {
            self.lemma_advanced();
            self.advanced().lemma_settled();
        } else if self.status[self.buckets[self.min_priority][0] as int] == ElemStatus::IN {
            assert(self.buckets[self.min_priority][0] < self.size());
            assert(self.live(self.min_priority, 0));
        } else {
            assert(!self.live(self.min_priority, 0));
            self.lemma_without_front();
            self.without_front().lemma_settled();
        }
    }

    /// Queuing `index` at its cost makes the state sound, and leaves it tidy
    /// where no entry of `index` lay below that cost.
    pub proof fn lemma_enqueued(self, index: usize)
        requires
            self.inv_but_for(index),
            index < self.size(),
            BucketModel::holds_key(self.values[index as int]),
        ensures
            self.enqueued(index).inv(),
            self.tidy() && self.none_below(index) ==> self.enqueued(index).tidy(),
            self.vacant(index) ==> self.none_below(index),
            forall|other: usize|
                other != index && self.vacant(other) ==> #[trigger] self.enqueued(index).vacant(
                    other,
                ),
    {
        let after = self.enqueued(index);
        let bucket = self.values[index as int] as int;
        assert forall|k: int, j: int|
            0 <= k < after.buckets.len() && 0 <= j < after.buckets[k].len() implies (
        #[trigger] after.buckets[k][j]) < after.size() && (after.live(k, j) && self.tidy()
            && self.none_below(index) ==> after.values[after.buckets[k][j] as int] <= k) by {
            if k == bucket && j == after.buckets[k].len() - 1 {
                assert(after.buckets[k][j] == index);
            } else {
                assert(after.buckets[k][j] == self.buckets[k][j]);
                if after.buckets[k][j] != index {
                    assert(after.live(k, j) == self.live(k, j));
                }
            }
        }
        assert forall|k: int|
            0 <= k < after.buckets.len() && (#[trigger] after.buckets[k]).len() > 0 implies after.min_priority
            <= k <= after.max_priority by {
            if k != bucket {
                assert(k < self.buckets.len());
                assert(self.buckets[k].len() > 0);
            }
        }
        assert forall|other: usize| other != index && self.vacant(other) implies #[trigger] after.vacant(
            other,
        ) by {
            assert forall|k: int, j: int|
                0 <= k < after.buckets.len() && 0 <= j < after.buckets[k].len() implies (
            #[trigger] after.buckets[k][j]) != other by {
                if k == bucket && j == after.buckets[k].len() - 1 {
                    assert(after.buckets[k][j] == index);
                } else {
                    assert(after.buckets[k][j] == self.buckets[k][j]);
                }
            }
        }
        assert forall|i: usize| i < after.size() implies #[trigger] after.held(i) by {
            if i == index {
                assert(after.buckets[bucket][after.buckets[bucket].len() - 1] == index);
            } else {
                assert(self.held(i));
                if self.status[i as int] == ElemStatus::IN {
                    let b = self.values[i as int] as int;
                    let at = self.buckets[b].index_of(i);
                    assert(after.buckets[b][at] == i);
                }
            }
        }
    }

    /// What `pop` leaves: a sound state in which the front of before is
    /// `POPPED`; in a tidy queue that front came first.
    pub proof fn lemma_popped(self)
        requires
            self.inv(),
        ensures
            self.popped().inv(),
            self.popped().values == self.values,
            self.popped().min_priority >= self.min_priority,
            self.tidy() ==> self.popped().tidy(),
            none_queued(self.status) ==> self.popped() == self.settled() && self.popped().status
                == self.status,
            !none_queued(self.status) ==> {
                &&& self.front() < self.size()
                &&& self.status[self.front() as int] == ElemStatus::IN
                &&& self.popped().status == self.status.update(
                    self.front() as int,
                    ElemStatus::POPPED,
                )
                &&& self.tidy() ==> comes_first(self.values, self.ages(), self.status, self.front())
            },
    {
        self.lemma_settled();
        let s = self.settled();
        if !none_queued(self.status) {
            let low = s.min_priority;
            let front = s.buckets[low][0];
            let after = self.popped();
            assert(front < s.size());
            assert(s.live(low, 0));
            assert(s.held(front));
            assert(s.buckets[s.values[front as int] as int].len() > 0);
            assert forall|k: int, j: int|
                0 <= k < after.buckets.len() && 0 <= j < after.buckets[k].len() implies (
            #[trigger] after.buckets[k][j]) < after.size() && (after.live(k, j) && self.tidy()
                ==> after.values[after.buckets[k][j] as int] <= k) by {
                if k == low {
                    assert(after.buckets[k][j] == s.buckets[k][j + 1]);
                    if after.live(k, j) {
                        assert(s.live(k, j + 1));
                    }
                } else {
                    assert(after.buckets[k][j] == s.buckets[k][j]);
                    if after.live(k, j) {
                        assert(s.live(k, j));
                    }
                }
            }
            assert forall|k: int|
                0 <= k < after.buckets.len() && (#[trigger] after.buckets[k]).len() > 0 implies after.min_priority
                <= k <= after.max_priority by {
                assert(s.buckets[k].len() > 0);
            }
            assert forall|i: usize| i < after.size() implies #[trigger] after.held(i) by {
                assert(s.held(i));
                if after.status[i as int] == ElemStatus::IN {
                    let b = s.values[i as int] as int;
                    let at = s.buckets[b].index_of(i);
                    if b == low {
                        assert(at != 0);
                        assert(after.buckets[b][at - 1] == i);
                    } else {
                        assert(after.buckets[b][at] == i);
                    }
                }
            }
            if self.tidy() {
                assert(s.values[front as int] <= low);
                assert forall|j: int|
                    0 <= j < self.status.len() && self.status[j] == ElemStatus::IN implies self.values[front as int]
                    < #[trigger] self.values[j] || (self.values[front as int] == self.values[j]
                    && self.ages()[front as int] <= self.ages()[j]) by {
                    assert(s.held(j as usize));
                    assert(s.buckets[s.values[j] as int].len() > 0);
                }
            }
        }
    }

    /// What `remove` leaves: a sound state in which the index, if it was
    /// queued, is `OUT`.
    pub proof fn lemma_removed(self, index: usize)
        requires
            self.inv(),
            index < self.size(),
        ensures
            self.removed(index).inv(),
            self.removed(index).values == self.values,
            self.removed(index).min_priority == self.min_priority,
            self.removed(index).max_priority == self.max_priority,
            self.tidy() ==> self.removed(index).tidy(),
            self.status[index as int] == ElemStatus::IN ==> self.removed(index).status
                == self.status.update(index as int, ElemStatus::OUT),
    {
        if self.status[index as int] == ElemStatus::IN {
            let after = self.removed(index);
            let bucket = self.values[index as int] as int;
            assert(self.held(index));
            lemma_first_place_exists(self.buckets[bucket], index);
            let gone = first_place(self.buckets[bucket], index);
            assert forall|k: int, j: int|
                0 <= k < after.buckets.len() && 0 <= j < after.buckets[k].len() implies (
            #[trigger] after.buckets[k][j]) < after.size() && (after.live(k, j) && self.tidy()
                ==> after.values[after.buckets[k][j] as int] <= k) by {
                if k == bucket && j >= gone {
                    assert(after.buckets[k][j] == self.buckets[k][j + 1]);
                    if after.live(k, j) {
                        assert(self.live(k, j + 1));
                    }
                } else {
                    assert(after.buckets[k][j] == self.buckets[k][j]);
                    if after.live(k, j) {
                        assert(self.live(k, j));
                    }
                }
            }
            assert forall|k: int|
                0 <= k < after.buckets.len() && (#[trigger] after.buckets[k]).len() > 0 implies after.min_priority
                <= k <= after.max_priority by {
                assert(self.buckets[k].len() > 0);
            }
            assert forall|i: usize| i < after.size() implies #[trigger] after.held(i) by {
                assert(self.held(i));
                if after.status[i as int] == ElemStatus::IN {
                    let b = self.values[i as int] as int;
                    let at = self.buckets[b].index_of(i);
                    if b == bucket && at > gone {
                        assert(after.buckets[b][at - 1] == i);
                    } else {
                        assert(after.buckets[b][at] == i);
                    }
                }
            }
        }
    }

    /// What `update_value` leaves: a sound state with the new cost and the
    /// statuses of before. It stays tidy where the index is not queued or its
    /// cost does not grow; its lower bound does not come down where the index
    /// is not queued or its cost does not shrink.
    pub proof fn lemma_updated(self, index: usize, value: i64, parent_index: i64)
        requires
            self.inv(),
            index < self.size(),
            self.status[index as int] == ElemStatus::IN ==> BucketModel::holds_key(value),
        ensures
            self.updated(index, value, parent_index).inv(),
            self.updated(index, value, parent_index).values == self.values.update(
                index as int,
                value,
            ),
            self.updated(index, value, parent_index).status == self.status,
            self.tidy() && (self.status[index as int] != ElemStatus::IN || value
                <= self.values[index as int]) ==> self.updated(index, value, parent_index).tidy(),
            self.status[index as int] != ElemStatus::IN || value >= self.values[index as int]
                ==> self.updated(index, value, parent_index).min_priority >= self.min_priority,
    {
        let after = self.updated(index, value, parent_index);
        if self.status[index as int] != ElemStatus::IN {
            self.lemma_revalued(index, value);
        } else {
            assert(self.held(index));
            assert(self.buckets[self.values[index as int] as int].len() > 0);
            let lifted = if value >= self.values[index as int] {
                self.removed(index)
            } else {
                self
            };
            self.lemma_removed(index);
            let moved = BucketModel { values: lifted.values.update(index as int, value), ..lifted };
            if value >= self.values[index as int] {
                lifted.lemma_revalued(index, value);
                if self.tidy() && value == self.values[index as int] {
                    let bucket = self.values[index as int] as int;
                    lemma_first_place_exists(self.buckets[bucket], index);
                    let gone = first_place(self.buckets[bucket], index);
                    assert forall|k: int, j: int|
                        0 <= k < moved.buckets.len() && 0 <= j < moved.buckets[k].len() && (
                        #[trigger] moved.buckets[k][j]) == index implies moved.values[index as int]
                        <= k by {
                        if k == bucket && j >= gone {
                            assert(moved.buckets[k][j] == self.buckets[k][j + 1]);
                            assert(self.live(k, j + 1));
                        } else {
                            assert(moved.buckets[k][j] == self.buckets[k][j]);
                            assert(self.live(k, j));
                        }
                    }
                }
            } else {
                assert forall|i: usize| i < moved.size() && i != index implies #[trigger] moved.held(
                    i,
                ) by {
                    assert(self.held(i));
                }
                if self.tidy() {
                    assert forall|k: int, j: int|
                        0 <= k < moved.buckets.len() && 0 <= j < moved.buckets[k].len()
                            && #[trigger] moved.live(k, j) implies moved.values[moved.buckets[k][j] as int]
                        <= k by {
                        assert(self.live(k, j));
                    }
                    assert forall|k: int, j: int|
                        0 <= k < moved.buckets.len() && 0 <= j < moved.buckets[k].len() && (
                        #[trigger] moved.buckets[k][j]) == index implies moved.values[index as int]
                        <= k by {
                        assert(self.live(k, j));
                    }
                }
            }
            moved.lemma_enqueued(index);
            assert(after.status =~= self.status);
        }
    }

    /// The lower scan bound never comes down while costs only grow: not by
    /// `is_empty`, `pop` or `remove`, and not by an `update_value` that does not
    /// lower the cost of a queued index.
    pub proof fn lemma_lower_bound_stays(self, index: usize, value: i64, parent_index: i64)
        requires
            self.inv(),
            index < self.size(),
            self.status[index as int] == ElemStatus::IN ==> BucketModel::holds_key(value),
            self.status[index as int] == ElemStatus::IN ==> value >= self.values[index as int],
        ensures
            self.settled().min_priority >= self.min_priority,
            self.popped().min_priority >= self.min_priority,
            self.removed(index).min_priority == self.min_priority,
            self.updated(index, value, parent_index).min_priority >= self.min_priority,
    {
        self.lemma_settled();
        self.lemma_popped();
        self.lemma_removed(index);
        self.lemma_updated(index, value, parent_index);
    }

    /// The queue takes `step` in this state: the index is one of the queue's,
    /// and a queued index gets a cost that the queue can hold and that is not
    /// below the cost it has.
    pub open spec fn admits(self, step: BucketStep) -> bool {
        match step {
            BucketStep::IsEmpty => true,
            BucketStep::Pop => true,
            BucketStep::Remove(index) => index < self.size(),
            BucketStep::Raise(index, value) => index < self.size() && (self.status[index as int]
                == ElemStatus::IN ==> BucketModel::holds_key(value) && value
                >= self.values[index as int]),
        }
    }

    /// The state that `step` leaves.
    pub open spec fn after(self, step: BucketStep) -> Self {
        match step {
            BucketStep::IsEmpty => self.settled(),
            BucketStep::Pop => self.popped(),
            BucketStep::Remove(index) => self.removed(index),
            BucketStep::Raise(index, value) => self.updated(index, value, -1i64),
        }
    }

    /// The queue takes each of `steps` in the state that the steps before it
    /// leave.
    pub open spec fn admits_all(self, steps: Seq<BucketStep>) -> bool
        decreases steps.len(),
    {
        steps.len() == 0 || (self.admits(steps[0]) && self.after(steps[0]).admits_all(
            steps.drop_first(),
        ))
    }

    /// The state that `steps` leave, taken in their order.
    pub open spec fn after_all(self, steps: Seq<BucketStep>) -> Self
        decreases steps.len(),
    {
        if steps.len() == 0 {
            self
        } else {
            self.after(steps[0]).after_all(steps.drop_first())
        }
    }

    /// Across any sequence of `is_empty`, `pop`, `remove` and `update_value`
    /// that lowers the cost of no queued index, the lower scan bound never
    /// comes down, and the state stays sound.
    pub proof fn lemma_lower_bound_never_comes_down(self, steps: Seq<BucketStep>)
        requires
            self.inv(),
            self.admits_all(steps),
        ensures
            self.after_all(steps).inv(),
            self.after_all(steps).min_priority >= self.min_priority,
        decreases steps.len(),
    {
        if steps.len() > 0 {
            match steps[0] {
                BucketStep::IsEmpty => {
                    self.lemma_settled();
                },
                BucketStep::Pop => {
                    self.lemma_popped();
                },
                BucketStep::Remove(index) => {
                    self.lemma_removed(index);
                },
                BucketStep::Raise(index, value) => {
                    self.lemma_updated(index, value, -1i64);
                },
            }
            self.after(steps[0]).lemma_lower_bound_never_comes_down(steps.drop_first());
        }
    }

    /// A new cost for an index that is not queued leaves the state sound and
    /// as tidy as before.
    pub proof fn lemma_revalued(self, index: usize, value: i64)
        requires
            self.inv(),
            index < self.size(),
            self.status[index as int] != ElemStatus::IN,
        ensures
            (BucketModel { values: self.values.update(index as int, value), ..self }).inv(),
            self.tidy() ==> (BucketModel {
                values: self.values.update(index as int, value),
                ..self
            }).tidy(),
    {
        let after = BucketModel { values: self.values.update(index as int, value), ..self };
        assert forall|i: usize| i < after.size() implies #[trigger] after.held(i) by {
            assert(self.held(i));
        }
        if self.tidy() {
            assert forall|k: int, j: int|
                0 <= k < after.buckets.len() && 0 <= j < after.buckets[k].len()
                    && #[trigger] after.live(k, j) implies after.values[after.buckets[k][j] as int]
                <= k by {
                assert(self.live(k, j));
            }
        }
    }
}

impl QueueModel for BucketModel {
    open spec fn inv(self) -> bool {
        &&& self.values.len() == self.status.len()
        &&& 1 <= self.status.len() <= usize::MAX
        &&& self.buckets.len() >= 1
        &&& 0 <= self.min_priority
        &&& 0 <= self.max_priority < self.buckets.len()
        &&& self.entries_are_indices()
        &&& self.entries_within_bounds()
        &&& self.queued_are_held()
    }

    open spec fn values(self) -> Seq<i64> {
        self.values
    }

    open spec fn statuses(self) -> Seq<ElemStatus> {
        self.status
    }

    /// Ties are broken by arrival: this backend keeps no ages.
    open spec fn ages(self) -> Seq<i64> {
        Seq::new(self.status.len(), |i: int| 0i64)
    }

    /// A bucket queue is never full.
    open spec fn full(self) -> bool {
        false
    }

    open spec fn accepts(self, index: usize) -> bool {
        true
    }

    /// A cost is the number of a bucket, and one more bucket must be
    /// countable.
    open spec fn holds_key(value: i64) -> bool {
        0 <= value < usize::MAX
    }

    open spec fn ordered(self) -> bool {
        self.tidy()
    }

    /// No bucket holds an entry of `index`.
    open spec fn vacant(self, index: usize) -> bool {
        forall|k: int, j: int|
            0 <= k < self.buckets.len() && 0 <= j < self.buckets[k].len() ==> (
            #[trigger] self.buckets[k][j]) != index
    }

    /// The lower bound moves up to the first bucket whose front is queued,
    /// or past the upper bound; entries that it passes, none of a queued index,
    /// are dropped.
    open spec fn settled(self) -> Self
        decreases self.max_priority + 1 - self.min_priority, self.front_bucket_len(),
    {
        if self.min_priority > self.max_priority || !(0 <= self.min_priority
            < self.buckets.len()) {
            self
        } else if self.buckets[self.min_priority].len() == 0 {
            self.advanced().settled()
        } else if self.status[self.buckets[self.min_priority][0] as int] == ElemStatus::IN {
            self
        } else {
            self.without_front().settled()
        }
    }

    open spec fn inserted(self, index: usize, parent_index: i64) -> Self {
        self.enqueued(index)
    }

    /// The front of the first bucket whose front is queued.
    open spec fn front(self) -> usize {
        let s = self.settled();
        s.buckets[s.min_priority][0]
    }

    open spec fn popped(self) -> Self {
        let s = self.settled();
        if s.min_priority > s.max_priority {
            s
        } else {
            BucketModel {
                status: s.status.update(s.buckets[s.min_priority][0] as int, ElemStatus::POPPED),
                ..s.without_front()
            }
        }
    }

    /// The first entry of `index` in the bucket of its cost goes.
    open spec fn removed(self, index: usize) -> Self {
        if self.status[index as int] != ElemStatus::IN {
            self
        } else {
            let bucket = self.values[index as int] as int;
            BucketModel {
                buckets: self.buckets.update(
                    bucket,
                    self.buckets[bucket].remove(first_place(self.buckets[bucket], index)),
                ),
                status: self.status.update(index as int, ElemStatus::OUT),
                ..self
            }
        }
    }

    /// A queued index is queued again at its new cost; it is first taken out
    /// of its bucket where the new cost is not smaller than the old.
    open spec fn updated(self, index: usize, value: i64, parent_index: i64) -> Self {
        if self.status[index as int] != ElemStatus::IN {
            BucketModel { values: self.values.update(index as int, value), ..self }
        } else {
            let lifted = if value >= self.values[index as int] {
                self.removed(index)
            } else {
                self
            };
            BucketModel { values: lifted.values.update(index as int, value), ..lifted }.enqueued(
                index,
            )
        }
    }

    open spec fn cleared(self) -> Self {
        BucketModel {
            values: self.values,
            buckets: empty_buckets(self.buckets.len()),
            min_priority: self.values.len() as int,
            max_priority: 0,
            status: Seq::new(self.status.len(), |i: int| ElemStatus::OUT),
        }
    }

    proof fn lemma_sizes(self) {
    }

    proof fn lemma_accepts(self, index: usize) {
    }

    proof fn lemma_cleared_is_empty(self) {
        let after = self.cleared();
        assert forall|i: usize| i < after.size() implies #[trigger] after.held(i) by {}
    }
}

/// A bucket queue over the indices of the cost array that it holds.
pub struct BucketQueue {
    values: IntArray,
    buckets: Vec<VecDeque<usize>>,
    min_priority: usize,
    max_priority: usize,
    pub status: Vec<ElemStatus>,
}

/// What each bucket holds.
pub open spec fn bucket_views(buckets: Seq<VecDeque<usize>>) -> Seq<Seq<usize>> {
    Seq::new(buckets.len(), |k: int| buckets[k]@)
}

impl View for BucketQueue {
    type V = BucketModel;

    closed spec fn view(&self) -> BucketModel {
        BucketModel {
            values: self.values@,
            buckets: bucket_views(self.buckets@),
            min_priority: self.min_priority as int,
            max_priority: self.max_priority as int,
            status: self.status@,
        }
    }
}

impl BucketQueue {
    /// A queue over `values` in which nothing is queued, with one bucket for
    /// each cost up to the largest of `values`.
    pub fn new(values: IntArray) -> (queue: Self)
        requires
            values@.len() >= 1,
            0 <= max_of(values@) < usize::MAX,
        ensures
            queue@.inv(),
            queue@.tidy(),
            queue@ == BucketModel::fresh(values@),
    {
        let size = values.len();
        proof {
            lemma_max_of(values@);
        }
        let largest = values.max().unwrap();
        let n_buckets = to_usize(largest).unwrap() + 1;
        let mut buckets: Vec<VecDeque<usize>> = Vec::new();
        while buckets.len() < n_buckets
            invariant
                buckets@.len() <= n_buckets,
                forall|k: int| 0 <= k < buckets@.len() ==> (#[trigger] buckets@[k])@ == Seq::<
                    usize,
                >::empty(),
            decreases n_buckets - buckets@.len(),
        {
            buckets.push(VecDeque::new());
        }
        let mut status: Vec<ElemStatus> = Vec::new();
        while status.len() < size
            invariant
                status@.len() <= size,
                forall|i: int| 0 <= i < status@.len() ==> status@[i] == ElemStatus::OUT,
            decreases size - status@.len(),
        {
            status.push(ElemStatus::OUT);
        }
        let queue = BucketQueue { values, buckets, min_priority: n_buckets, max_priority: 0, status };
        proof {
            assert(queue@.buckets =~= empty_buckets((max_of(values@) + 1) as nat));
            assert(queue@.status =~= Seq::new(values@.len(), |i: int| ElemStatus::OUT));
            assert forall|i: usize| i < queue@.size() implies #[trigger] queue@.held(i) by {}
        }
        queue
    }

    /// Gives the cost array back, with the costs as the queue leaves them.
    pub fn into_values(self) -> (values: IntArray)
        ensures
            values@ == self@.values,
    {
        self.values
    }

    /// The bucket from which the scan for the next index to pop starts.
    pub fn min_priority(&self) -> (k: usize)
        ensures
            k == self@.min_priority,
    {
        self.min_priority
    }

    /// The last bucket that the scan for the next index to pop looks at.
    pub fn max_priority(&self) -> (k: usize)
        ensures
            k == self@.max_priority,
    {
        self.max_priority
    }

    /// The number of buckets.
    pub fn n_buckets(&self) -> (n: usize)
        ensures
            n == self@.buckets.len(),
    {
        self.buckets.len()
    }

    /// The number of entries in bucket `k`.
    pub fn bucket_len(&self, k: usize) -> (n: usize)
        requires
            k < self@.buckets.len(),
        ensures
            n == self@.buckets[k as int].len(),
    {
        self.buckets[k].len()
    }

    /// The bucket of an index: its cost.
    #[inline(always)]
    fn get_bucket(&self, index: usize) -> (bucket: usize)
        requires
            index < self@.values.len(),
            0 <= self@.values[index as int] <= usize::MAX,
        ensures
            bucket == self@.values[index as int],
    {
        to_usize(self.values.get(index)).unwrap()
    }

    /// Appends `index` to the bucket of its cost and marks it `IN`.
    fn enqueue(&mut self, index: usize)
        requires
            old(self)@.inv_but_for(index),
            index < old(self)@.size(),
            BucketModel::holds_key(old(self)@.values[index as int]),
        ensures
            final(self)@ == old(self)@.enqueued(index),
            final(self)@.inv(),
    {
        let bucket = self.get_bucket(index);

        if bucket < self.min_priority {
            self.min_priority = bucket;
        }
        if bucket > self.max_priority {
            self.max_priority = bucket;
        }
        if bucket >= self.buckets.len() {
            while self.buckets.len() < bucket + 1
                invariant
                    bucket < usize::MAX,
                    old(self).buckets@.len() <= self.buckets@.len() <= bucket + 1,
                    forall|k: int|
                        0 <= k < old(self).buckets@.len() ==> self.buckets@[k] == old(
                            self,
                        ).buckets@[k],
                    forall|k: int|
                        old(self).buckets@.len() <= k < self.buckets@.len() ==> (
                        #[trigger] self.buckets@[k])@ == Seq::<usize>::empty(),
                    self.status == old(self).status,
                    self.values == old(self).values,
                    self.min_priority == if bucket < old(self).min_priority {
                        bucket
                    } else {
                        old(self).min_priority
                    },
                    self.max_priority == if bucket > old(self).max_priority {
                        bucket
                    } else {
                        old(self).max_priority
                    },
                decreases bucket + 1 - self.buckets@.len(),
            {
                self.buckets.push(VecDeque::new());
            }
        }
        self.status[index] = ElemStatus::IN;
        self.buckets[bucket].push_back(index);
        proof {
            assert(self@.buckets =~= old(self)@.enqueued(index).buckets);
            assert(self@ =~= old(self)@.enqueued(index));
            old(self)@.lemma_enqueued(index);
        }
    }
}

impl PriorityQueue for BucketQueue {
    fn is_full(&self) -> (full: bool) {
        false
    }

    fn is_empty(&mut self) -> (empty: bool)
        ensures
            final(self)@.min_priority >= old(self)@.min_priority,
    {
        while self.min_priority <= self.max_priority
            invariant
                old(self)@.inv(),
                self@.inv(),
                self@.settled() == old(self)@.settled(),
            decreases self@.max_priority + 1 - self@.min_priority,
        {
            let ghost low = self.min_priority;
            let ghost high = self.max_priority;
            while self.buckets[self.min_priority].len() > 0
                invariant
                    old(self)@.inv(),
                    self@.inv(),
                    self.min_priority == low,
                    self.max_priority == high,
                    low <= high,
                    self@.settled() == old(self)@.settled(),
                decreases self@.front_bucket_len(),
            {
                let ghost before = self@;
                let front = self.buckets[self.min_priority][0];
                assert(front == before.buckets[before.min_priority][0]);
                if self.status[front] == ElemStatus::IN {
                    proof {
                        old(self)@.lemma_settled();
                    }
                    return false;
                }
                self.buckets[self.min_priority].pop_front();
                proof {
                    assert(self@.buckets =~= before.without_front().buckets);
                    assert(self@ =~= before.without_front());
                    assert(!before.live(before.min_priority, 0));
                    before.lemma_without_front();
                }
            }
            let ghost before = self@;
            assert(self.max_priority < self.buckets.len());
            self.min_priority += 1;
            proof {
                assert(self@ =~= before.advanced());
                before.lemma_advanced();
            }
        }
        proof {
            old(self)@.lemma_settled();
        }
        true
    }

    fn insert(&mut self, index: usize, _parent_index: i64) -> (res: Result<(), QueueError>)
        ensures
            old(self)@.tidy() && old(self)@.none_below(index) ==> final(self)@.tidy(),
    {
        proof {
            old(self)@.lemma_enqueued(index);
        }
        self.enqueue(index);
        proof {
            assert(self@.ages() =~= old(self)@.ages());
        }
        Ok(())
    }

    fn pop(&mut self) -> (res: Result<usize, QueueError>)
        ensures
            final(self)@.min_priority >= old(self)@.min_priority,
    {
        proof {
            old(self)@.lemma_settled();
            old(self)@.lemma_popped();
        }
        if self.is_empty() {
            return Err(QueueError::Empty);
        }
        let ghost settled = self@;
        let index = self.buckets[self.min_priority].pop_front().unwrap();
        self.status[index] = ElemStatus::POPPED;
        proof {
            assert(self@.buckets =~= old(self)@.popped().buckets);
            assert(self@ =~= old(self)@.popped());
            assert(self@.ages() =~= old(self)@.ages());
        }
        Ok(index)
    }

    fn remove(&mut self, index: usize) -> (res: Result<(), QueueError>)
        ensures
            final(self)@.min_priority == old(self)@.min_priority,
    {
        proof {
            old(self)@.lemma_removed(index);
        }
        if self.status[index] != ElemStatus::IN {
            return Err(QueueError::NotQueued);
        }
        assert(self@.held(index));
        let bucket = self.get_bucket(index);
        let ghost entries = self@.buckets[bucket as int];
        let ghost somewhere = entries.index_of(index);
        let mut index_in_bucket: usize = 0;
        while self.buckets[bucket][index_in_bucket] != index
            invariant
                bucket < self.buckets@.len(),
                self.buckets@[bucket as int]@ == entries,
                0 <= index_in_bucket <= somewhere < entries.len(),
                entries[somewhere] == index,
                forall|j: int| 0 <= j < index_in_bucket ==> entries[j] != index,
            decreases entries.len() - index_in_bucket,
        {
            assert(entries[index_in_bucket as int] != index);
            assert(somewhere < self.buckets@[bucket as int].len());
            index_in_bucket += 1;
        }
        proof {
            lemma_first_place(entries, index, index_in_bucket as int);
        }
        self.buckets[bucket].remove(index_in_bucket);
        self.status[index] = ElemStatus::OUT;
        proof {
            assert(self@.buckets =~= old(self)@.removed(index).buckets);
            assert(self@ =~= old(self)@.removed(index));
            assert(self@.ages() =~= old(self)@.ages());
        }
        Ok(())
    }

    fn update_value(&mut self, index: usize, value: i64, parent_index: i64)
        ensures
            old(self)@.statuses()[index as int] != ElemStatus::IN || value >= old(
                self,
            )@.values()[index as int] ==> final(self)@.min_priority >= old(self)@.min_priority,
    {
        proof {
            old(self)@.lemma_updated(index, value, parent_index);
            old(self)@.lemma_removed(index);
        }
        if self.status[index] != ElemStatus::IN {
            self.values.set(index, value);
        } else {
            // only an index whose cost goes down stays in its old bucket too
            if value >= self.values.get(index) {
                self.remove(index).unwrap();
            }
            let ghost lifted = self@;
            self.values.set(index, value);
            proof {
                let moved = BucketModel { values: lifted.values.update(index as int, value), ..lifted };
                assert(self@ =~= moved);
                assert forall|i: usize| i < moved.size() && i != index implies #[trigger] moved.held(
                    i,
                ) by {
                    assert(lifted.held(i));
                }
            }
            self.enqueue(index);
        }
        proof {
            assert(self@ =~= old(self)@.updated(index, value, parent_index));
            assert(self@.ages() =~= old(self)@.ages());
        }
    }

    fn reset(&mut self) {
        self.min_priority = self.values.len();
        self.max_priority = 0;
        let n = self.status.len();
        let mut i: usize = 0;
        while i < n
            invariant
                i <= n,
                n == self.status@.len(),
                forall|j: int| 0 <= j < i ==> self.status@[j] == ElemStatus::OUT,
                self.buckets == old(self).buckets,
                self.values == old(self).values,
                self.min_priority == old(self).values@.len(),
                self.max_priority == 0,
            decreases n - i,
        {
            self.status[i] = ElemStatus::OUT;
            i += 1;
        }
        let m = self.buckets.len();
        let mut k: usize = 0;
        while k < m
            invariant
                k <= m,
                m == self.buckets@.len(),
                forall|j: int| 0 <= j < k ==> (#[trigger] self.buckets@[j])@ == Seq::<
                    usize,
                >::empty(),
                self.status@.len() == n,
                forall|j: int| 0 <= j < n ==> self.status@[j] == ElemStatus::OUT,
                self.values == old(self).values,
                self.min_priority == old(self).values@.len(),
                self.max_priority == 0,
            decreases m - k,
        {
            self.buckets[k].clear();
            k += 1;
        }
        proof {
            assert(self@.buckets =~= old(self)@.cleared().buckets);
            assert(self@.status =~= old(self)@.cleared().status);
            assert(self@ =~= old(self)@.cleared());
            old(self)@.lemma_cleared_is_empty();
        }
    }

    #[inline(always)]
    fn get_value(&self, index: usize) -> (value: i64) {
        self.values.get(index)
    }

    #[inline(always)]
    fn get_status(&self, index: usize) -> (status: ElemStatus) {
        self.status[index]
    }
}

} // verus!
