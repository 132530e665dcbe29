//! The image forest transform: from every masked cell taken as a seed, a
//! forest of minimax paths grows over the grid.
//!
//! Every masked cell starts as its own root, at the cost that the queue
//! holds for it. The cell that comes first in the queue is finalized; one
//! that is still its own root takes its elevation as cost; then each of its
//! masked neighbors that is not final, and that it reaches at a smaller cost
//! than the neighbor has, takes over its root. The cost of reaching a
//! neighbor is the larger of the cell's cost and the neighbor's elevation.

use vstd::prelude::*;
use crate::adjacency::Adjacency;
use crate::array::{IndexArray, IntArray};
use crate::priority_queue::{
    all_zero, comes_first, none_queued, ElemStatus, PriorityQueue, QueueModel,
};

verus! {

/// The state of a run: that of the queue, and the root of each cell.
pub ghost struct Forest<M> {
    pub queue: M,
    pub roots: Seq<usize>,
}

/// The number of indices that are not `POPPED`.
pub open spec fn unpopped(statuses: Seq<ElemStatus>) -> nat
    decreases statuses.len(),
{
    if statuses.len() == 0 {
        0
    } else if statuses.last() != ElemStatus::POPPED {
        unpopped(statuses.drop_last()) + 1
    } else {
        unpopped(statuses.drop_last())
    }
}

/// A change of one status changes the count by what that status adds or
/// takes away.
pub proof fn lemma_unpopped_update(statuses: Seq<ElemStatus>, i: int, status: ElemStatus)
    requires
        0 <= i < statuses.len(),
    ensures
        unpopped(statuses) <= statuses.len(),
        unpopped(statuses.update(i, status)) + (if statuses[i] != ElemStatus::POPPED {
            1int
        } else {
            0int
        }) == unpopped(statuses) + (if status != ElemStatus::POPPED {
            1int
        } else {
            0int
        }),
    decreases statuses.len(),
{
    let changed = statuses.update(i, status);
    if i == statuses.len() - 1 {
        assert(changed.drop_last() =~= statuses.drop_last());
        lemma_unpopped_bound(statuses.drop_last());
    } else {
        assert(changed.drop_last() =~= statuses.drop_last().update(i, status));
        lemma_unpopped_update(statuses.drop_last(), i, status);
    }
}

/// No more indices are not `POPPED` than there are indices, and as many
/// where none is `POPPED`.
pub proof fn lemma_unpopped_bound(statuses: Seq<ElemStatus>)
    ensures
        unpopped(statuses) <= statuses.len(),
        (forall|i: int| 0 <= i < statuses.len() ==> statuses[i] != ElemStatus::POPPED)
            ==> unpopped(statuses) == statuses.len(),
    decreases statuses.len(),
{
    if statuses.len() > 0 {
        lemma_unpopped_bound(statuses.drop_last());
    }
}

/// The cell at index `i` is its own root.
pub open spec fn own_roots(n: nat) -> Seq<usize> {
    Seq::new(n, |i: int| i as usize)
}

/// The queue after the masked ones of the first `upto` cells were inserted
/// as seeds, in the order of their indices.
pub open spec fn seeded<M: QueueModel>(m: M, mask: Seq<bool>, upto: int) -> M
    decreases upto,
{
    if upto <= 0 {
        m
    } else if mask[upto - 1] {
        seeded(m, mask, upto - 1).inserted((upto - 1) as usize, -1i64)
    } else {
        seeded(m, mask, upto - 1)
    }
}

/// The cost of reaching `q` through `p`: the larger of the cost of `p` and
/// the elevation of `q`.
pub open spec fn path_cost(topology: Seq<i64>, values: Seq<i64>, p: usize, q: usize) -> i64 {
    if topology[q as int] > values[p as int] {
        topology[q as int]
    } else {
        values[p as int]
    }
}

/// The state after `p` has tried to conquer its neighbor `q`: a masked `q`
/// that is not final and that `p` reaches at a smaller cost than it has takes
/// that cost and the root of `p`.
pub open spec fn conquered<M: QueueModel>(
    f: Forest<M>,
    topology: Seq<i64>,
    mask: Seq<bool>,
    p: usize,
    q: usize,
) -> Forest<M> {
    let cost = path_cost(topology, f.queue.values(), p, q);
    if mask[q as int] && f.queue.statuses()[q as int] != ElemStatus::POPPED && cost
        < f.queue.values()[q as int] {
        Forest {
            queue: f.queue.updated(q, cost, p as i64),
            roots: f.roots.update(q as int, f.roots[p as int]),
        }
    } else {
        f
    }
}

/// The state after `p` has tried to conquer the first `upto` of its
/// neighbors, in their order.
pub open spec fn relaxed<M: QueueModel>(
    f: Forest<M>,
    topology: Seq<i64>,
    mask: Seq<bool>,
    p: usize,
    neighbors: Seq<usize>,
    upto: int,
) -> Forest<M>
    decreases upto,
{
    if upto <= 0 {
        f
    } else {
        conquered(
            relaxed(f, topology, mask, p, neighbors, upto - 1),
            topology,
            mask,
            p,
            neighbors[upto - 1],
        )
    }
}

/// The state after one round: the cell that comes first is popped; if it is
/// its own root, its cost becomes its elevation; then it tries to conquer each
/// of its neighbors.
pub open spec fn stepped<A: Adjacency, M: QueueModel>(
    adj: A,
    f: Forest<M>,
    topology: Seq<i64>,
    mask: Seq<bool>,
) -> Forest<M> {
    let p = f.queue.settled().front();
    let popped = f.queue.settled().popped();
    let unbiased = if f.roots[p as int] == p {
        popped.updated(p, topology[p as int], -1i64)
    } else {
        popped
    };
    relaxed(
        Forest { queue: unbiased, roots: f.roots },
        topology,
        mask,
        p,
        adj.neighbors_of(p),
        adj.neighbors_of(p).len() as int,
    )
}

/// The state after as many rounds as `fuel` allows and the queue has cells
/// for.
pub open spec fn grown<A: Adjacency, M: QueueModel>(
    adj: A,
    f: Forest<M>,
    topology: Seq<i64>,
    mask: Seq<bool>,
    fuel: nat,
) -> Forest<M>
    decreases fuel,
{
    if fuel == 0 || none_queued(f.queue.statuses()) {
        Forest { queue: f.queue.settled(), roots: f.roots }
    } else {
        grown(adj, stepped(adj, f, topology, mask), topology, mask, (fuel - 1) as nat)
    }
}

/// The forest that a run leaves: the queue is reset, the masked cells are
/// inserted as seeds, and rounds follow until nothing is queued.
pub open spec fn forest_of<A: Adjacency, M: QueueModel>(
    adj: A,
    m: M,
    topology: Seq<i64>,
    mask: Seq<bool>,
) -> Forest<M> {
    let seeds = seeded(m.cleared(), mask, mask.len() as int);
    grown(
        adj,
        Forest { queue: seeds, roots: own_roots(mask.len()) },
        topology,
        mask,
        unpopped(seeds.statuses()),
    )
}

/// What holds of the masked cell `i` while the forest grows: its root is a
/// masked cell; a root other than the cell itself is final and its own root; a
/// final root has its elevation as cost; and the cell's cost is not below its
/// root's.
pub open spec fn rooted(
    roots: Seq<usize>,
    values: Seq<i64>,
    statuses: Seq<ElemStatus>,
    topology: Seq<i64>,
    mask: Seq<bool>,
    i: int,
) -> bool {
    let r = roots[i] as int;
    &&& 0 <= r < mask.len()
    &&& mask[r]
    &&& statuses[i] != ElemStatus::OUT
    &&& r != i ==> statuses[r] == ElemStatus::POPPED && roots[r] == r
    &&& statuses[r] == ElemStatus::POPPED && roots[r] == r ==> values[r] == topology[r]
    &&& values[i] >= values[r]
}

/// What holds of an unmasked cell throughout: it is its own root, it was
/// never queued, and it has the cost that it started with.
pub open spec fn untouched(
    roots: Seq<usize>,
    values: Seq<i64>,
    statuses: Seq<ElemStatus>,
    start: Seq<i64>,
    i: int,
) -> bool {
    &&& roots[i] == i
    &&& statuses[i] == ElemStatus::OUT
    &&& values[i] == start[i]
}

/// What holds of every cell while the forest grows.
pub open spec fn growing(
    roots: Seq<usize>,
    values: Seq<i64>,
    statuses: Seq<ElemStatus>,
    topology: Seq<i64>,
    mask: Seq<bool>,
    start: Seq<i64>,
) -> bool {
    &&& roots.len() == mask.len()
    &&& values.len() == mask.len()
    &&& statuses.len() == mask.len()
    &&& topology.len() == mask.len()
    &&& start.len() == mask.len()
    &&& forall|i: int|
        0 <= i < mask.len() ==> if #[trigger] mask[i] {
            rooted(roots, values, statuses, topology, mask, i)
        } else {
            untouched(roots, values, statuses, start, i)
        }
}

/// What holds of the finished forest: every masked cell is final, and its
/// root is a masked cell that is its own root and has its elevation as cost,
/// which the cell's cost is not below; every unmasked cell is as it was.
pub open spec fn is_forest(
    roots: Seq<usize>,
    values: Seq<i64>,
    statuses: Seq<ElemStatus>,
    topology: Seq<i64>,
    mask: Seq<bool>,
    start: Seq<i64>,
) -> bool {
    &&& roots.len() == mask.len()
    &&& values.len() == mask.len()
    &&& statuses.len() == mask.len()
    &&& forall|i: int|
        0 <= i < mask.len() ==> if #[trigger] mask[i] {
            let r = roots[i] as int;
            &&& statuses[i] == ElemStatus::POPPED
            &&& 0 <= r < mask.len()
            &&& mask[r]
            &&& roots[r] == r
            &&& values[r] == topology[r]
            &&& values[i] >= values[r]
        } else {
            untouched(roots, values, statuses, start, i)
        }
}

/// Along the way from a seed to a cell of its basin the cost does not
/// decrease: in a finished forest the cost of a masked cell is not below the
/// cost of its root, which is the root's elevation.
pub proof fn lemma_cost_not_below_seed(
    roots: Seq<usize>,
    values: Seq<i64>,
    statuses: Seq<ElemStatus>,
    topology: Seq<i64>,
    mask: Seq<bool>,
    start: Seq<i64>,
    i: int,
)
    requires
        is_forest(roots, values, statuses, topology, mask, start),
        0 <= i < mask.len(),
        mask[i],
    ensures
        roots[i] < mask.len(),
        values[i] >= values[roots[i] as int],
        values[roots[i] as int] == topology[roots[i] as int],
{
}

/// The masked cells have costs and elevations that the queue can hold.
pub open spec fn keys_fit<M: QueueModel>(
    values: Seq<i64>,
    topology: Seq<i64>,
    mask: Seq<bool>,
) -> bool {
    forall|i: int|
        0 <= i < mask.len() && #[trigger] mask[i] ==> M::holds_key(values[i]) && M::holds_key(
            topology[i],
        )
}

/// No cell is older than the number of cells that are final.
pub open spec fn ages_bounded(ages: Seq<i64>, statuses: Seq<ElemStatus>) -> bool {
    forall|i: int| 0 <= i < ages.len() ==> #[trigger] ages[i] <= statuses.len() - unpopped(statuses)
}

/// Every masked cell that is not its own root was conquered through
/// `pred`: a masked and final cell of which it is a neighbor, which has the
/// same root, and through which it is reached at the cost that it has. No
/// unmasked cell takes part.
pub open spec fn reached_through<A: Adjacency>(
    adj: A,
    pred: Seq<usize>,
    roots: Seq<usize>,
    values: Seq<i64>,
    statuses: Seq<ElemStatus>,
    topology: Seq<i64>,
    mask: Seq<bool>,
) -> bool {
    &&& pred.len() == mask.len()
    &&& forall|i: int|
        0 <= i < mask.len() && #[trigger] mask[i] && roots[i] != i ==> {
            let p = pred[i];
            &&& p < mask.len()
            &&& mask[p as int]
            &&& statuses[p as int] == ElemStatus::POPPED
            &&& adj.neighbors_of(p).contains(i as usize)
            &&& roots[i] == roots[p as int]
            &&& values[i] == path_cost(topology, values, p, i as usize)
        }
}

/// The seeds compete in the order of their elevations: of two masked cells,
/// the one that does not start at the larger cost does not lie higher.
pub open spec fn seeds_in_order(start: Seq<i64>, topology: Seq<i64>, mask: Seq<bool>) -> bool {
    forall|i: int, j: int|
        0 <= i < mask.len() && 0 <= j < mask.len() && mask[i] && mask[j] && #[trigger] no_later(
            start,
            i,
            j,
        ) ==> topology[i] <= topology[j]
}

/// Cell `i` does not start at a larger cost than cell `j`.
pub open spec fn no_later(start: Seq<i64>, i: int, j: int) -> bool {
    start[i] <= start[j]
}

/// The masked cell `r` is final and its own root: the seed of a basin.
pub open spec fn is_seed(roots: Seq<usize>, statuses: Seq<ElemStatus>, mask: Seq<bool>, r: int) -> bool {
    mask[r] && statuses[r] == ElemStatus::POPPED && roots[r] == r
}

/// The masked cell `q` is queued.
pub open spec fn is_waiting(statuses: Seq<ElemStatus>, mask: Seq<bool>, q: int) -> bool {
    mask[q] && statuses[q] == ElemStatus::IN
}

/// What holds while the forest grows from seeds that compete in the order
/// of their elevations: a queued cell has not gone above the cost that it
/// started with, and is at that cost while it is its own root; no cell lies
/// below its root; and no queued cell lies below the seed of a basin.
pub open spec fn descending(
    roots: Seq<usize>,
    values: Seq<i64>,
    statuses: Seq<ElemStatus>,
    topology: Seq<i64>,
    mask: Seq<bool>,
    start: Seq<i64>,
) -> bool {
    &&& forall|i: int|
        0 <= i < mask.len() && #[trigger] mask[i] ==> {
            &&& statuses[i] == ElemStatus::IN ==> values[i] <= start[i]
            &&& statuses[i] == ElemStatus::IN && roots[i] == i ==> values[i] == start[i]
            &&& topology[roots[i] as int] <= topology[i]
        }
    &&& forall|r: int, q: int|
        0 <= r < mask.len() && 0 <= q < mask.len() && #[trigger] is_seed(roots, statuses, mask, r)
            && #[trigger] is_waiting(statuses, mask, q) ==> topology[r] <= topology[q]
}

/// The seed of a basin is its lowest cell: no masked cell lies below its
/// root.
pub open spec fn seeds_are_lowest(roots: Seq<usize>, topology: Seq<i64>, mask: Seq<bool>) -> bool {
    forall|i: int|
        0 <= i < mask.len() && #[trigger] mask[i] ==> topology[roots[i] as int] <= topology[i]
}

/// Finalizing the queued cell of the least cost keeps the cells in
/// descending order.
pub proof fn lemma_finalize_descending(
    roots: Seq<usize>,
    values: Seq<i64>,
    statuses: Seq<ElemStatus>,
    topology: Seq<i64>,
    mask: Seq<bool>,
    start: Seq<i64>,
    p: int,
)
    requires
        growing(roots, values, statuses, topology, mask, start),
        descending(roots, values, statuses, topology, mask, start),
        seeds_in_order(start, topology, mask),
        0 <= p < mask.len(),
        statuses[p] == ElemStatus::IN,
        forall|j: int|
            0 <= j < mask.len() && #[trigger] statuses[j] == ElemStatus::IN ==> values[p]
                <= values[j],
    ensures
        descending(
            roots,
            if roots[p] == p {
                values.update(p, topology[p])
            } else {
                values
            },
            statuses.update(p, ElemStatus::POPPED),
            topology,
            mask,
            start,
        ),
{
    let values2 = if roots[p] == p {
        values.update(p, topology[p])
    } else {
        values
    };
    let statuses2 = statuses.update(p, ElemStatus::POPPED);
    assert(mask[p]);
    assert forall|r: int, q: int|
        0 <= r < mask.len() && 0 <= q < mask.len() && #[trigger] is_seed(roots, statuses2, mask, r)
            && #[trigger] is_waiting(statuses2, mask, q) implies topology[r] <= topology[q] by {
        assert(is_waiting(statuses, mask, q));
        if r == p {
            assert(mask[q]);
            assert(statuses[q] == ElemStatus::IN);
            assert(no_later(start, p, q));
        } else {
            assert(is_seed(roots, statuses, mask, r));
        }
    }
}

/// A conquest keeps the cells in descending order.
pub proof fn lemma_conquer_descending(
    roots: Seq<usize>,
    values: Seq<i64>,
    statuses: Seq<ElemStatus>,
    topology: Seq<i64>,
    mask: Seq<bool>,
    start: Seq<i64>,
    p: usize,
    q: usize,
)
    requires
        growing(roots, values, statuses, topology, mask, start),
        descending(roots, values, statuses, topology, mask, start),
        p < mask.len(),
        q < mask.len(),
        mask[p as int],
        mask[q as int],
        statuses[p as int] == ElemStatus::POPPED,
        statuses[q as int] == ElemStatus::IN,
        path_cost(topology, values, p, q) < values[q as int],
    ensures
        descending(
            roots.update(q as int, roots[p as int]),
            values.update(q as int, path_cost(topology, values, p, q)),
            statuses,
            topology,
            mask,
            start,
        ),
{
    let roots2 = roots.update(q as int, roots[p as int]);
    let values2 = values.update(q as int, path_cost(topology, values, p, q));
    let r = roots[p as int] as int;
    assert(rooted(roots, values, statuses, topology, mask, p as int));
    assert(is_seed(roots, statuses, mask, r));
    assert(is_waiting(statuses, mask, q as int));
    assert forall|i: int| 0 <= i < mask.len() && #[trigger] mask[i] implies {
        &&& statuses[i] == ElemStatus::IN ==> values2[i] <= start[i]
        &&& statuses[i] == ElemStatus::IN && roots2[i] == i ==> values2[i] == start[i]
        &&& topology[roots2[i] as int] <= topology[i]
    } by {}
    assert forall|r2: int, q2: int|
        0 <= r2 < mask.len() && 0 <= q2 < mask.len() && #[trigger] is_seed(
            roots2,
            statuses,
            mask,
            r2,
        ) && #[trigger] is_waiting(statuses, mask, q2) implies topology[r2] <= topology[q2] by {
        assert(is_seed(roots, statuses, mask, r2));
    }
}

/// Finalizing a queued cell keeps the record of how each cell was reached.
pub proof fn lemma_finalize_reached<A: Adjacency>(
    adj: A,
    pred: Seq<usize>,
    roots: Seq<usize>,
    values: Seq<i64>,
    statuses: Seq<ElemStatus>,
    topology: Seq<i64>,
    mask: Seq<bool>,
    p: int,
)
    requires
        reached_through(adj, pred, roots, values, statuses, topology, mask),
        roots.len() == mask.len(),
        values.len() == mask.len(),
        statuses.len() == mask.len(),
        0 <= p < mask.len(),
        statuses[p] == ElemStatus::IN,
    ensures
        reached_through(
            adj,
            pred,
            roots,
            if roots[p] == p {
                values.update(p, topology[p])
            } else {
                values
            },
            statuses.update(p, ElemStatus::POPPED),
            topology,
            mask,
        ),
{
}

/// A conquest of `q` by `p` is recorded with `p` as the cell through which
/// `q` was reached.
pub proof fn lemma_conquer_reached<A: Adjacency>(
    adj: A,
    pred: Seq<usize>,
    roots: Seq<usize>,
    values: Seq<i64>,
    statuses: Seq<ElemStatus>,
    topology: Seq<i64>,
    mask: Seq<bool>,
    p: usize,
    q: usize,
)
    requires
        reached_through(adj, pred, roots, values, statuses, topology, mask),
        roots.len() == mask.len(),
        values.len() == mask.len(),
        statuses.len() == mask.len(),
        p < mask.len(),
        q < mask.len(),
        mask[p as int],
        mask[q as int],
        statuses[p as int] == ElemStatus::POPPED,
        statuses[q as int] != ElemStatus::POPPED,
        adj.neighbors_of(p).contains(q),
    ensures
        reached_through(
            adj,
            pred.update(q as int, p),
            roots.update(q as int, roots[p as int]),
            values.update(q as int, path_cost(topology, values, p, q)),
            statuses,
            topology,
            mask,
        ),
{
}

/// Finalizing a queued cell, with its elevation as cost where it is still
/// its own root, keeps what holds of every cell.
pub proof fn lemma_finalize(
    roots: Seq<usize>,
    values: Seq<i64>,
    statuses: Seq<ElemStatus>,
    topology: Seq<i64>,
    mask: Seq<bool>,
    start: Seq<i64>,
    p: int,
)
    requires
        growing(roots, values, statuses, topology, mask, start),
        0 <= p < mask.len(),
        statuses[p] == ElemStatus::IN,
    ensures
        mask[p],
        growing(
            roots,
            if roots[p] == p {
                values.update(p, topology[p])
            } else {
                values
            },
            statuses.update(p, ElemStatus::POPPED),
            topology,
            mask,
            start,
        ),
{
    let values2 = if roots[p] == p {
        values.update(p, topology[p])
    } else {
        values
    };
    let statuses2 = statuses.update(p, ElemStatus::POPPED);
    assert(mask[p]);
    assert forall|i: int| 0 <= i < mask.len() implies if #[trigger] mask[i] {
        rooted(roots, values2, statuses2, topology, mask, i)
    } else {
        untouched(roots, values2, statuses2, start, i)
    } by {
        if mask[i] {
            assert(rooted(roots, values, statuses, topology, mask, i));
            let r = roots[i] as int;
            assert(mask[r]);
        }
    }
}

/// A conquest keeps what holds of every cell.
pub proof fn lemma_conquer(
    roots: Seq<usize>,
    values: Seq<i64>,
    statuses: Seq<ElemStatus>,
    topology: Seq<i64>,
    mask: Seq<bool>,
    start: Seq<i64>,
    p: usize,
    q: usize,
)
    requires
        growing(roots, values, statuses, topology, mask, start),
        p < mask.len(),
        q < mask.len(),
        mask[p as int],
        mask[q as int],
        statuses[p as int] == ElemStatus::POPPED,
        statuses[q as int] != ElemStatus::POPPED,
    ensures
        growing(
            roots.update(q as int, roots[p as int]),
            values.update(q as int, path_cost(topology, values, p, q)),
            statuses,
            topology,
            mask,
            start,
        ),
{
    let roots2 = roots.update(q as int, roots[p as int]);
    let values2 = values.update(q as int, path_cost(topology, values, p, q));
    assert(rooted(roots, values, statuses, topology, mask, p as int));
    assert(rooted(roots, values, statuses, topology, mask, q as int));
    assert forall|i: int| 0 <= i < mask.len() implies if #[trigger] mask[i] {
        rooted(roots2, values2, statuses, topology, mask, i)
    } else {
        untouched(roots2, values2, statuses, start, i)
    } by {
        if mask[i] {
            assert(rooted(roots, values, statuses, topology, mask, i));
            let r = roots[i] as int;
            assert(mask[r]);
        }
    }
}

/// Grows the forest: resets `queue`, inserts every masked cell as a seed at
/// the cost that `queue` holds for it, and pops and relaxes until nothing is
/// queued. It returns the root of each cell; the final costs are those that
/// `queue` holds afterwards.
pub fn ift<A: Adjacency, Q: PriorityQueue>(
    adj: &A,
    queue: &mut Q,
    topology: &IntArray,
    mask: &Vec<bool>,
) -> (roots: IndexArray) where Q::V: QueueModel
    requires
        adj.wf(),
        adj.size() == mask@.len(),
        topology@.len() == mask@.len(),
        mask@.len() <= isize::MAX,
        old(queue)@.inv(),
        old(queue)@.statuses().len() == mask@.len(),
        keys_fit::<Q::V>(old(queue)@.values(), topology@, mask@),
    ensures
        final(queue)@.inv(),
        (Forest { queue: final(queue)@, roots: roots@ }) == forest_of(
            *adj,
            old(queue)@,
            topology@,
            mask@,
        ),
        is_forest(
            roots@,
            final(queue)@.values(),
            final(queue)@.statuses(),
            topology@,
            mask@,
            old(queue)@.values(),
        ),
        exists|pred: Seq<usize>|
            reached_through(
                *adj,
                pred,
                roots@,
                final(queue)@.values(),
                final(queue)@.statuses(),
                topology@,
                mask@,
            ),
        seeds_in_order(old(queue)@.values(), topology@, mask@) ==> seeds_are_lowest(
            roots@,
            topology@,
            mask@,
        ),
{
    let size = mask.len();
    let ghost start = old(queue)@.values();
    proof {
        old(queue)@.lemma_sizes();
        old(queue)@.lemma_cleared_is_empty();
    }
    queue.reset();
    proof {
        queue@.lemma_sizes();
    }

    let mut indices: Vec<usize> = Vec::with_capacity(size);
    let mut i: usize = 0;
    while i < size
        invariant
            i <= size,
            indices@ == own_roots(i as nat),
        decreases size - i,
    {
        indices.push(i);
        i += 1;
        assert(indices@ =~= own_roots(i as nat));
    }
    let mut roots = IndexArray::from_shape_vec(size, indices).unwrap();

    let mut i: usize = 0;
    while i < size
        invariant
            i <= size,
            size == mask@.len(),
            topology@.len() == size,
            queue@.inv(),
            queue@ == seeded(old(queue)@.cleared(), mask@, i as int),
            queue@.values() == start,
            queue@.statuses().len() == size,
            queue@.ages().len() == size,
            forall|j: int|
                0 <= j < size ==> #[trigger] queue@.statuses()[j] == if j < i && mask@[j] {
                    ElemStatus::IN
                } else {
                    ElemStatus::OUT
                },
            all_zero(queue@.ages()),
            keys_fit::<Q::V>(start, topology@, mask@),
            queue@.ordered(),
            forall|j: usize| i <= j ==> #[trigger] queue@.vacant(j),
        decreases size - i,
    {
        if mask[i] {
            proof {
                queue@.lemma_accepts(i);
            }
            let ghost before = queue@;
            let seeded = queue.insert(i, -1);
            proof {
                queue@.lemma_sizes();
            }
            seeded.unwrap();
        }
        i += 1;
    }

    let ghost seeds = queue@;
    let ghost target = forest_of(*adj, old(queue)@, topology@, mask@);
    let ghost mut pred = own_roots(size as nat);
    proof {
        lemma_unpopped_bound(seeds.statuses());
        assert forall|j: int| 0 <= j < mask@.len() && #[trigger] mask@[j] implies {
            &&& seeds.statuses()[j] == ElemStatus::IN ==> seeds.values()[j] <= start[j]
            &&& seeds.statuses()[j] == ElemStatus::IN && roots@[j] == j ==> seeds.values()[j]
                == start[j]
            &&& topology@[roots@[j] as int] <= topology@[j]
        } by {}
        assert forall|r: int, q: int|
            0 <= r < mask@.len() && 0 <= q < mask@.len() && #[trigger] is_seed(
                roots@,
                seeds.statuses(),
                mask@,
                r,
            ) && #[trigger] is_waiting(seeds.statuses(), mask@, q) implies topology@[r]
            <= topology@[q] by {
            assert(seeds.statuses()[r] == if mask@[r] {
                ElemStatus::IN
            } else {
                ElemStatus::OUT
            });
        }
        assert forall|j: int| 0 <= j < size implies if #[trigger] mask@[j] {
            rooted(roots@, seeds.values(), seeds.statuses(), topology@, mask@, j)
        } else {
            untouched(roots@, seeds.values(), seeds.statuses(), start, j)
        } by {
            assert(seeds.statuses()[j] == if mask@[j] {
                ElemStatus::IN
            } else {
                ElemStatus::OUT
            });
        }
    }

    loop
        invariant_except_break
            grown(
                *adj,
                Forest { queue: queue@, roots: roots@ },
                topology@,
                mask@,
                unpopped(queue@.statuses()),
            ) == target,
        invariant
            adj.wf(),
            adj.size() == size,
            size == mask@.len(),
            size <= isize::MAX,
            queue@.inv(),
            queue@.ages().len() == size,
            growing(roots@, queue@.values(), queue@.statuses(), topology@, mask@, start),
            keys_fit::<Q::V>(queue@.values(), topology@, mask@),
            ages_bounded(queue@.ages(), queue@.statuses()),
            reached_through(
                *adj,
                pred,
                roots@,
                queue@.values(),
                queue@.statuses(),
                topology@,
                mask@,
            ),
            queue@.ordered(),
            start.len() == size,
            seeds_in_order(start, topology@, mask@) ==> descending(
                roots@,
                queue@.values(),
                queue@.statuses(),
                topology@,
                mask@,
                start,
            ),
        ensures
            none_queued(queue@.statuses()),
            (Forest { queue: queue@, roots: roots@ }) == target,
        decreases unpopped(queue@.statuses()),
    {
        let ghost before = Forest { queue: queue@, roots: roots@ };
        let ghost fuel = unpopped(before.queue.statuses());
        if queue.is_empty() {
            break ;
        }
        let ghost settled = queue@;
        let popped = queue.pop();
        let p = popped.unwrap();
        proof {
            queue@.lemma_sizes();
            lemma_unpopped_update(settled.statuses(), p as int, ElemStatus::POPPED);
            lemma_finalize(
                roots@,
                settled.values(),
                settled.statuses(),
                topology@,
                mask@,
                start,
                p as int,
            );
            lemma_finalize_reached(
                *adj,
                pred,
                roots@,
                settled.values(),
                settled.statuses(),
                topology@,
                mask@,
                p as int,
            );
            if seeds_in_order(start, topology@, mask@) {
                lemma_finalize_descending(
                    roots@,
                    settled.values(),
                    settled.statuses(),
                    topology@,
                    mask@,
                    start,
                    p as int,
                );
            }
        }

        if roots.get(p) == p {
            queue.update_value(p, topology.get(p), -1);
            proof {
                queue@.lemma_sizes();
            }
        }
        let ghost unbiased = queue@;
        let ghost final_count = size - unpopped(unbiased.statuses());
        proof {
            assert(unbiased.statuses() == settled.statuses().update(p as int, ElemStatus::POPPED));
            assert(unbiased.ages()[p as int] < final_count);
            assert forall|i: int| 0 <= i < mask@.len() && #[trigger] mask@[i] implies Q::V::holds_key(
                unbiased.values()[i],
            ) && Q::V::holds_key(topology@[i]) by {}
        }

        let neighbors = adj.neighbors(p);
        proof {
            adj.lemma_neighbors_in_grid(p);
        }
        let mut k: usize = 0;
        while k < neighbors.len()
            invariant
                k <= neighbors@.len(),
                neighbors@ == adj.neighbors_of(p),
                forall|j: int| 0 <= j < neighbors@.len() ==> (#[trigger] neighbors@[j]) < size,
                size == mask@.len(),
                size <= isize::MAX,
                p < size,
                mask@[p as int],
                queue@.inv(),
                queue@.ages().len() == size,
                queue@.statuses() == unbiased.statuses(),
                queue@.statuses()[p as int] == ElemStatus::POPPED,
                final_count == size - unpopped(unbiased.statuses()),
                queue@.ages()[p as int] < final_count,
                final_count <= size,
                growing(roots@, queue@.values(), queue@.statuses(), topology@, mask@, start),
                keys_fit::<Q::V>(queue@.values(), topology@, mask@),
                ages_bounded(queue@.ages(), queue@.statuses()),
                reached_through(
                    *adj,
                    pred,
                    roots@,
                    queue@.values(),
                    queue@.statuses(),
                    topology@,
                    mask@,
                ),
                queue@.ordered(),
                start.len() == size,
                seeds_in_order(start, topology@, mask@) ==> descending(
                    roots@,
                    queue@.values(),
                    queue@.statuses(),
                    topology@,
                    mask@,
                    start,
                ),
                (Forest { queue: queue@, roots: roots@ }) == relaxed(
                    Forest { queue: unbiased, roots: before.roots },
                    topology@,
                    mask@,
                    p,
                    neighbors@,
                    k as int,
                ),
            decreases neighbors@.len() - k,
        {
            let q = neighbors[k];
            let ghost here = Forest { queue: queue@, roots: roots@ };
            if mask[q] && queue.get_status(q) != ElemStatus::POPPED {
                let path_cost: i64;

                if topology.get(q) > queue.get_value(p) {
                    path_cost = topology.get(q);
                } else {
                    path_cost = queue.get_value(p);
                }

                if path_cost < queue.get_value(q) {
                    proof {
                        assert(rooted(
                            roots@,
                            queue@.values(),
                            queue@.statuses(),
                            topology@,
                            mask@,
                            q as int,
                        ));
                        lemma_conquer(
                            roots@,
                            queue@.values(),
                            queue@.statuses(),
                            topology@,
                            mask@,
                            start,
                            p,
                            q,
                        );
                        assert(neighbors@[k as int] == q);
                        lemma_conquer_reached(
                            *adj,
                            pred,
                            roots@,
                            queue@.values(),
                            queue@.statuses(),
                            topology@,
                            mask@,
                            p,
                            q,
                        );
                        pred = pred.update(q as int, p);
                        if seeds_in_order(start, topology@, mask@) {
                            lemma_conquer_descending(
                                roots@,
                                queue@.values(),
                                queue@.statuses(),
                                topology@,
                                mask@,
                                start,
                                p,
                                q,
                            );
                        }
                    }
                    let root = roots.get(p);
                    roots.set(q, root);
                    queue.update_value(q, path_cost, p as i64);
                    proof {
                        queue@.lemma_sizes();
                    }
                }
            }
            proof {
                assert((Forest { queue: queue@, roots: roots@ }) == conquered(
                    here,
                    topology@,
                    mask@,
                    p,
                    q,
                ));
            }
            k += 1;
        }
        proof {
            assert((Forest { queue: queue@, roots: roots@ }) == stepped(
                *adj,
                before,
                topology@,
                mask@,
            ));
            assert(fuel >= 1) by {
                lemma_unpopped_update(before.queue.statuses(), p as int, ElemStatus::POPPED);
            }
        }
    }

    proof {
        assert forall|i: int| 0 <= i < mask@.len() implies if #[trigger] mask@[i] {
            let r = roots@[i] as int;
            &&& queue@.statuses()[i] == ElemStatus::POPPED
            &&& 0 <= r < mask@.len()
            &&& mask@[r]
            &&& roots@[r] == r
            &&& queue@.values()[r] == topology@[r]
            &&& queue@.values()[i] >= queue@.values()[r]
        } else {
            untouched(roots@, queue@.values(), queue@.statuses(), start, i)
        } by {
            if mask@[i] {
                assert(rooted(roots@, queue@.values(), queue@.statuses(), topology@, mask@, i));
                let r = roots@[i] as int;
                assert(rooted(roots@, queue@.values(), queue@.statuses(), topology@, mask@, r));
            }
        }
    }
    roots
}

} // verus!
