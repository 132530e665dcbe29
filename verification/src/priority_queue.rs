//! What the two queue backends share: the status of an element, the errors,
//! and the operations with their contract.
//!
//! A queue orders the indices `0 .. n` of a cost array that it holds. Its
//! contract is stated over a mathematical state, the queue's view: every
//! operation leaves the state that one function of the old state gives, and
//! the statuses, costs and ages in it change as the operation's clauses say.

use vstd::prelude::*;

verus! {

/// Where an index stands with respect to the queue.
#[derive(Clone, Copy, Debug, PartialEq, Eq, Structural)]
pub enum ElemStatus {
    /// Never queued, or taken out by `remove`.
    OUT,
    /// Queued: it can be popped, removed or moved.
    IN,
    /// Popped: final.
    POPPED,
}

/// Why an operation of a queue failed.
#[derive(Clone, Copy, Debug, PartialEq, Eq, Structural)]
pub enum QueueError {
    /// `insert` on a queue that holds as many elements as it has room for.
    Full,
    /// `pop` on a queue in which nothing is queued.
    Empty,
    /// `remove` of an index that is not queued.
    NotQueued,
}

/// No index is queued.
pub open spec fn none_queued(statuses: Seq<ElemStatus>) -> bool {
    forall|i: int| 0 <= i < statuses.len() ==> statuses[i] != ElemStatus::IN
}

/// The age that an index takes from `parent_index`: one more than the
/// parent's, or zero where there is no parent.
pub open spec fn derived_age(ages: Seq<i64>, parent_index: i64) -> int {
    if parent_index >= 0 {
        ages[parent_index as int] + 1
    } else {
        0
    }
}

/// `parent_index` names no parent, or one whose age can still grow by one.
pub open spec fn parent_ok(ages: Seq<i64>, parent_index: i64) -> bool {
    parent_index >= 0 ==> parent_index < ages.len() && ages[parent_index as int] < i64::MAX
}

/// The ages are as before, or as before but for `index`, whose age was taken
/// from `parent_index`.
pub open spec fn ages_follow(before: Seq<i64>, after: Seq<i64>, index: usize, parent_index: i64) -> bool {
    after == before || after == before.update(
        index as int,
        derived_age(before, parent_index) as i64,
    )
}

/// No queued index comes before `index`: none has a smaller cost, and none
/// of equal cost a smaller age.
pub open spec fn comes_first(
    values: Seq<i64>,
    ages: Seq<i64>,
    statuses: Seq<ElemStatus>,
    index: usize,
) -> bool {
    forall|j: int|
        0 <= j < statuses.len() && statuses[j] == ElemStatus::IN ==> values[index as int]
            < #[trigger] values[j] || (values[index as int] == values[j] && ages[index as int]
            <= ages[j])
}

/// Every index is `OUT`.
pub open spec fn all_out(statuses: Seq<ElemStatus>) -> bool {
    forall|i: int| 0 <= i < statuses.len() ==> statuses[i] == ElemStatus::OUT
}

/// Every age is zero.
pub open spec fn all_zero(ages: Seq<i64>) -> bool {
    forall|i: int| 0 <= i < ages.len() ==> ages[i] == 0
}

/// The mathematical state of a queue.
pub trait QueueModel: Sized {
    /// The state is one that the operations can start from.
    spec fn inv(self) -> bool;

    /// The cost of each index.
    spec fn values(self) -> Seq<i64>;

    /// The status of each index.
    spec fn statuses(self) -> Seq<ElemStatus>;

    /// The age of each index; all zero in a backend that breaks ties by
    /// arrival.
    spec fn ages(self) -> Seq<i64>;

    /// `insert` fails.
    spec fn full(self) -> bool;

    /// `insert` can take `index`: always where `index` is not queued.
    spec fn accepts(self, index: usize) -> bool;

    /// The backend can queue an index at this cost.
    spec fn holds_key(value: i64) -> bool;

    /// The queue's structure agrees with the costs, so that `pop` returns
    /// the index that comes first.
    spec fn ordered(self) -> bool;

    /// The queue's structure holds nothing of `index`: so it is after a
    /// reset, until the index is inserted.
    spec fn vacant(self, index: usize) -> bool;

    /// The state that `is_empty` leaves.
    spec fn settled(self) -> Self;

    /// The state that a successful `insert` leaves.
    spec fn inserted(self, index: usize, parent_index: i64) -> Self;

    /// The index that `pop` returns where one is queued.
    spec fn front(self) -> usize;

    /// The state that `pop` leaves.
    spec fn popped(self) -> Self;

    /// The state that `remove` leaves.
    spec fn removed(self, index: usize) -> Self;

    /// The state that `update_value` leaves.
    spec fn updated(self, index: usize, value: i64, parent_index: i64) -> Self;

    /// The state that `reset` leaves.
    spec fn cleared(self) -> Self;

    /// A state has one cost, one status and one age for each index.
    proof fn lemma_sizes(self)
        requires
            self.inv(),
        ensures
            self.values().len() == self.statuses().len(),
            self.ages().len() == self.statuses().len(),
    ;

    /// While an index is not queued the queue is not full, and that index
    /// can be inserted.
    proof fn lemma_accepts(self, index: usize)
        requires
            self.inv(),
            index < self.statuses().len(),
            self.statuses()[index as int] != ElemStatus::IN,
        ensures
            self.accepts(index),
            !self.full(),
    ;

    /// Whatever came before, after a reset every index is `OUT` and nothing
    /// is queued.
    proof fn lemma_cleared_is_empty(self)
        requires
            self.inv(),
        ensures
            self.cleared().inv(),
            self.cleared().statuses().len() == self.statuses().len(),
            all_out(self.cleared().statuses()),
            none_queued(self.cleared().statuses()),
            all_zero(self.cleared().ages()),
            self.cleared().ordered(),
            forall|index: usize| #[trigger] self.cleared().vacant(index),
    ;
}

/// A priority queue over the indices of a cost array.
pub trait PriorityQueue: View where Self::V: QueueModel {
    /// Whether `insert` would fail.
    fn is_full(&self) -> (full: bool)
        requires
            self@.inv(),
        ensures
            full == self@.full(),
    ;

    /// Whether nothing is queued. It may tidy the queue's structure, and
    /// changes no status, cost or age.
    fn is_empty(&mut self) -> (empty: bool)
        requires
            old(self)@.inv(),
        ensures
            final(self)@.inv(),
            final(self)@ == old(self)@.settled(),
            empty == none_queued(old(self)@.statuses()),
            final(self)@.statuses() == old(self)@.statuses(),
            final(self)@.values() == old(self)@.values(),
            final(self)@.ages() == old(self)@.ages(),
            old(self)@.ordered() ==> final(self)@.ordered(),
    ;

    /// Queues `index` at its current cost, with the age that `parent_index`
    /// gives it. Fails, and changes nothing, where the queue is full.
    fn insert(&mut self, index: usize, parent_index: i64) -> (res: Result<(), QueueError>)
        requires
            old(self)@.inv(),
            index < old(self)@.statuses().len(),
            Self::V::holds_key(old(self)@.values()[index as int]),
            parent_ok(old(self)@.ages(), parent_index),
            old(self)@.accepts(index),
        ensures
            final(self)@.inv(),
            old(self)@.full() ==> res == Err::<(), QueueError>(QueueError::Full) && final(self)@
                == old(self)@,
            !old(self)@.full() ==> {
                &&& res == Ok::<(), QueueError>(())
                &&& final(self)@ == old(self)@.inserted(index, parent_index)
                &&& final(self)@.statuses() == old(self)@.statuses().update(
                    index as int,
                    ElemStatus::IN,
                )
                &&& final(self)@.values() == old(self)@.values()
                &&& ages_follow(old(self)@.ages(), final(self)@.ages(), index, parent_index)
                &&& old(self)@.ordered() && old(self)@.vacant(index) ==> final(self)@.ordered()
                &&& forall|other: usize|
                    other != index && old(self)@.vacant(other) ==> #[trigger] final(self)@.vacant(
                        other,
                    )
            },
    ;

    /// Takes out the queued index that comes first and marks it `POPPED`.
    /// Fails, and changes no status, cost or age, where nothing is queued.
    fn pop(&mut self) -> (res: Result<usize, QueueError>)
        requires
            old(self)@.inv(),
        ensures
            final(self)@.inv(),
            final(self)@ == old(self)@.popped(),
            final(self)@.values() == old(self)@.values(),
            final(self)@.ages() == old(self)@.ages(),
            old(self)@.ordered() ==> final(self)@.ordered(),
            none_queued(old(self)@.statuses()) ==> res == Err::<usize, QueueError>(
                QueueError::Empty,
            ) && final(self)@.statuses() == old(self)@.statuses(),
            !none_queued(old(self)@.statuses()) ==> {
                let index = old(self)@.front();
                &&& res == Ok::<usize, QueueError>(index)
                &&& index < old(self)@.statuses().len()
                &&& old(self)@.statuses()[index as int] == ElemStatus::IN
                &&& final(self)@.statuses() == old(self)@.statuses().update(
                    index as int,
                    ElemStatus::POPPED,
                )
                &&& old(self)@.ordered() ==> comes_first(
                    old(self)@.values(),
                    old(self)@.ages(),
                    old(self)@.statuses(),
                    index,
                )
            },
    ;

    /// Takes the queued `index` out without popping it, and marks it `OUT`.
    /// Fails, and changes nothing, where `index` is not queued.
    fn remove(&mut self, index: usize) -> (res: Result<(), QueueError>)
        requires
            old(self)@.inv(),
            index < old(self)@.statuses().len(),
        ensures
            final(self)@.inv(),
            final(self)@ == old(self)@.removed(index),
            final(self)@.values() == old(self)@.values(),
            final(self)@.ages() == old(self)@.ages(),
            old(self)@.ordered() ==> final(self)@.ordered(),
            old(self)@.statuses()[index as int] != ElemStatus::IN ==> res == Err::<
                (),
                QueueError,
            >(QueueError::NotQueued) && final(self)@ == old(self)@,
            old(self)@.statuses()[index as int] == ElemStatus::IN ==> res == Ok::<(), QueueError>(
                (),
            ) && final(self)@.statuses() == old(self)@.statuses().update(
                index as int,
                ElemStatus::OUT,
            ),
    ;

    /// Sets the cost of `index` and, where it is queued, moves it to the
    /// place of its new cost.
    fn update_value(&mut self, index: usize, value: i64, parent_index: i64)
        requires
            old(self)@.inv(),
            index < old(self)@.statuses().len(),
            parent_ok(old(self)@.ages(), parent_index),
            old(self)@.statuses()[index as int] == ElemStatus::IN ==> Self::V::holds_key(value),
        ensures
            final(self)@.inv(),
            final(self)@ == old(self)@.updated(index, value, parent_index),
            final(self)@.values() == old(self)@.values().update(index as int, value),
            final(self)@.statuses() == old(self)@.statuses(),
            ages_follow(old(self)@.ages(), final(self)@.ages(), index, parent_index),
            old(self)@.ordered() && (old(self)@.statuses()[index as int] != ElemStatus::IN || value
                <= old(self)@.values()[index as int]) ==> final(self)@.ordered(),
    ;

    /// Returns every index to `OUT` and to age zero, and forgets the queue's
    /// structure. The costs stay.
    fn reset(&mut self)
        requires
            old(self)@.inv(),
        ensures
            final(self)@.inv(),
            final(self)@ == old(self)@.cleared(),
            final(self)@.values() == old(self)@.values(),
            final(self)@.statuses().len() == old(self)@.statuses().len(),
            all_out(final(self)@.statuses()),
            all_zero(final(self)@.ages()),
            final(self)@.ordered(),
            forall|index: usize| #[trigger] final(self)@.vacant(index),
    ;

    fn get_value(&self, index: usize) -> (value: i64)
        requires
            self@.inv(),
            index < self@.statuses().len(),
        ensures
            value == self@.values()[index as int],
    ;

    fn get_status(&self, index: usize) -> (status: ElemStatus)
        requires
            self@.inv(),
            index < self@.statuses().len(),
        ensures
            status == self@.statuses()[index as int],
    ;
}

} // verus!
