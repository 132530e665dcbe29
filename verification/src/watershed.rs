//! Watershed from minima: the basins of a grid of elevations, each labelled
//! by the seed that claims it.
//!
//! Every masked cell competes as a seed at the cost of its elevation plus a
//! margin `h`; the margin keeps a shallow minimum from holding a basin of its
//! own. Integer elevations are queued in buckets. Costs of any other order,
//! given as integer keys that keep that order, are queued in a heap.
//!
//! An unmasked cell takes no part: its elevation is not read, it is never
//! queued, and its label is zero.

use vstd::prelude::*;
use crate::adjacency::{AdjacencyGrid2D, AdjacencyGrid3D};
use crate::array::{to_usize, zero, IndexArray, IntArray};
use crate::bucket_queue::{lemma_max_of, BucketModel, BucketQueue};
use crate::heap::{Heap, HeapModel};
use crate::ift::{
    forest_of, ift, is_forest, keys_fit, no_later, seeds_are_lowest, seeds_in_order,
};
use crate::priority_queue::{ElemStatus, PriorityQueue, QueueModel};

verus! {

/// Why a watershed was not computed.
#[derive(Clone, Copy, Debug, PartialEq, Eq, Structural)]
pub enum WatershedError {
    /// The grid has neither two nor three dimensions.
    UnsupportedDimension,
    /// The elevations, the costs or the mask are not one for each cell of the
    /// grid.
    ShapeMismatch,
    /// The margin is not positive.
    NonPositiveMargin,
    /// The grid has no cell.
    EmptyInput,
    /// An elevation is negative, or with the margin too large for a bucket.
    CostOutOfRange,
}

/// The number of cells of a grid of two or three dimensions.
pub open spec fn cells(shape: Seq<usize>) -> int {
    if shape.len() == 2 {
        shape[0] * shape[1]
    } else {
        shape[0] * shape[1] * shape[2]
    }
}

/// The labels that the roots give: for a masked cell its root's index plus
/// one, for any other cell zero.
pub open spec fn labels_of(roots: Seq<usize>, mask: Seq<bool>) -> Seq<usize> {
    Seq::new(
        mask.len(),
        |i: int|
            if mask[i] {
                (roots[i] + 1) as usize
            } else {
                0usize
            },
    )
}

/// The labels of the forest that grows on the grid of `shape` from the
/// queue state `m`.
pub open spec fn basins<M: QueueModel>(
    m: M,
    topology: Seq<i64>,
    mask: Seq<bool>,
    shape: Seq<usize>,
) -> Seq<usize> {
    labels_of(forest_roots(m, topology, mask, shape), mask)
}

/// Zero is the label of the unmasked cells and of no other. The label of a
/// masked cell, less one, is the index of a masked cell that has that same
/// label: the seed of the basin.
pub open spec fn labelled(labels: Seq<usize>, mask: Seq<bool>) -> bool {
    &&& labels.len() == mask.len()
    &&& forall|i: int|
        0 <= i < mask.len() ==> if #[trigger] mask[i] {
            &&& 1 <= labels[i] <= mask.len()
            &&& mask[labels[i] - 1]
            &&& labels[labels[i] - 1] == labels[i]
        } else {
            labels[i] == 0
        }
}

/// What is wrong with the grid, if anything: first its dimension, then the
/// number of elevations, costs and mask entries.
pub open spec fn grid_error(
    shape: Seq<usize>,
    n_topology: nat,
    n_costs: nat,
    n_mask: nat,
) -> Option<WatershedError> {
    if shape.len() != 2 && shape.len() != 3 {
        Some(WatershedError::UnsupportedDimension)
    } else if cells(shape) != n_topology || n_costs != n_topology || n_mask != n_topology {
        Some(WatershedError::ShapeMismatch)
    } else if n_topology == 0 {
        Some(WatershedError::EmptyInput)
    } else {
        None
    }
}

/// The values of the masked cells, and zero in place of every other: what
/// a watershed reads of an array.
pub open spec fn screened(values: Seq<i64>, mask: Seq<bool>) -> Seq<i64> {
    Seq::new(
        values.len(),
        |i: int|
            if mask[i] {
                values[i]
            } else {
                0i64
            },
    )
}

/// The elevation of every masked cell is the number of a bucket, and so is
/// that elevation with the margin added.
pub open spec fn costs_in_range(topology: Seq<i64>, mask: Seq<bool>, h: i64) -> bool {
    forall|i: int|
        0 <= i < topology.len() && #[trigger] mask[i] ==> 0 <= topology[i] && topology[i] + h
            < usize::MAX && topology[i] + h <= i64::MAX
}

/// The elevations with the margin added.
pub open spec fn biased(topology: Seq<i64>, h: i64) -> Seq<i64> {
    Seq::new(topology.len(), |i: int| (topology[i] + h) as i64)
}

/// What is wrong with the input of `watershed_from_minima`, if anything:
/// first the grid's dimension, then the number of elevations and mask
/// entries, then the margin, then an empty grid, then the elevations of the
/// masked cells.
pub open spec fn input_error(
    topology: Seq<i64>,
    mask: Seq<bool>,
    shape: Seq<usize>,
    h: i64,
) -> Option<WatershedError> {
    if shape.len() != 2 && shape.len() != 3 {
        Some(WatershedError::UnsupportedDimension)
    } else if cells(shape) != topology.len() || mask.len() != topology.len() {
        Some(WatershedError::ShapeMismatch)
    } else if h <= 0 {
        Some(WatershedError::NonPositiveMargin)
    } else if topology.len() == 0 {
        Some(WatershedError::EmptyInput)
    } else if !costs_in_range(topology, mask, h) {
        Some(WatershedError::CostOutOfRange)
    } else {
        None
    }
}

/// What `watershed_from_minima` returns on an input: the error of the input
/// where it has one, else the labels of the forest that grows from a new
/// bucket queue over the elevations with the margin added. Of the elevations
/// only those of the masked cells are read.
pub open spec fn minima_outcome(
    res: Result<Vec<usize>, WatershedError>,
    topology: Seq<i64>,
    mask: Seq<bool>,
    shape: Seq<usize>,
    h: i64,
) -> bool {
    match input_error(topology, mask, shape, h) {
        Some(error) => res == Err::<Vec<usize>, WatershedError>(error),
        None => res matches Ok(labels) && labels@ == basins(
            BucketModel::fresh(biased(screened(topology, mask), h)),
            screened(topology, mask),
            mask,
            shape,
        ),
    }
}

/// What `watershed_from_costs` returns on an input: the error of the grid
/// where it has one, else the labels of the forest that grows from a new heap
/// over the costs. Of the elevations and costs only those of the masked cells
/// are read.
pub open spec fn costs_outcome(
    res: Result<Vec<usize>, WatershedError>,
    topology: Seq<i64>,
    cost: Seq<i64>,
    mask: Seq<bool>,
    shape: Seq<usize>,
) -> bool {
    match grid_error(shape, topology.len(), cost.len(), mask.len()) {
        Some(error) => res == Err::<Vec<usize>, WatershedError>(error),
        None => res matches Ok(labels) && labels@ == basins(
            HeapModel::fresh(screened(cost, mask)),
            screened(topology, mask),
            mask,
            shape,
        ),
    }
}

/// Two results hold the same: the same error, or the same labels.
pub open spec fn same_result(
    first: Result<Vec<usize>, WatershedError>,
    second: Result<Vec<usize>, WatershedError>,
) -> bool {
    match (first, second) {
        (Ok(a), Ok(b)) => a@ == b@,
        (Err(a), Err(b)) => a == b,
        _ => false,
    }
}

/// The watershed is a function of its input: whatever two runs of
/// `watershed_from_minima` on the same elevations, mask, shape and margin
/// return holds the same.
pub proof fn lemma_minima_deterministic(
    first: Result<Vec<usize>, WatershedError>,
    second: Result<Vec<usize>, WatershedError>,
    topology: Seq<i64>,
    mask: Seq<bool>,
    shape: Seq<usize>,
    h: i64,
)
    requires
        minima_outcome(first, topology, mask, shape, h),
        minima_outcome(second, topology, mask, shape, h),
    ensures
        same_result(first, second),
{
}

/// Whatever two runs of `watershed_from_costs` on the same elevations,
/// costs, mask and shape return holds the same.
pub proof fn lemma_costs_deterministic(
    first: Result<Vec<usize>, WatershedError>,
    second: Result<Vec<usize>, WatershedError>,
    topology: Seq<i64>,
    cost: Seq<i64>,
    mask: Seq<bool>,
    shape: Seq<usize>,
)
    requires
        costs_outcome(first, topology, cost, mask, shape),
        costs_outcome(second, topology, cost, mask, shape),
    ensures
        same_result(first, second),
{
}

/// An unmasked cell takes no part: two runs of `watershed_from_minima` on
/// elevations that differ on unmasked cells only return the same, whatever
/// those cells hold.
pub proof fn lemma_minima_ignores_unmasked(
    first: Result<Vec<usize>, WatershedError>,
    second: Result<Vec<usize>, WatershedError>,
    topology1: Seq<i64>,
    topology2: Seq<i64>,
    mask: Seq<bool>,
    shape: Seq<usize>,
    h: i64,
)
    requires
        minima_outcome(first, topology1, mask, shape, h),
        minima_outcome(second, topology2, mask, shape, h),
        topology1.len() == topology2.len(),
        forall|i: int| 0 <= i < topology1.len() && mask[i] ==> topology1[i] == topology2[i],
    ensures
        same_result(first, second),
{
    assert(screened(topology1, mask) =~= screened(topology2, mask));
    assert(costs_in_range(topology1, mask, h) == costs_in_range(topology2, mask, h)) by {
        if costs_in_range(topology1, mask, h) {
            assert forall|i: int| 0 <= i < topology2.len() && #[trigger] mask[i] implies 0
                <= topology2[i] && topology2[i] + h < usize::MAX && topology2[i] + h
                <= i64::MAX by {
                assert(topology1[i] == topology2[i]);
            }
        }
        if costs_in_range(topology2, mask, h) {
            assert forall|i: int| 0 <= i < topology1.len() && #[trigger] mask[i] implies 0
                <= topology1[i] && topology1[i] + h < usize::MAX && topology1[i] + h
                <= i64::MAX by {
                assert(topology1[i] == topology2[i]);
            }
        }
    }
}

/// Two runs of `watershed_from_costs` on elevations and costs that differ
/// on unmasked cells only return the same.
pub proof fn lemma_costs_ignores_unmasked(
    first: Result<Vec<usize>, WatershedError>,
    second: Result<Vec<usize>, WatershedError>,
    topology1: Seq<i64>,
    topology2: Seq<i64>,
    cost1: Seq<i64>,
    cost2: Seq<i64>,
    mask: Seq<bool>,
    shape: Seq<usize>,
)
    requires
        costs_outcome(first, topology1, cost1, mask, shape),
        costs_outcome(second, topology2, cost2, mask, shape),
        topology1.len() == topology2.len(),
        cost1.len() == cost2.len(),
        forall|i: int| 0 <= i < topology1.len() && mask[i] ==> topology1[i] == topology2[i],
        forall|i: int| 0 <= i < cost1.len() && mask[i] ==> cost1[i] == cost2[i],
    ensures
        same_result(first, second),
{
    assert(screened(topology1, mask) =~= screened(topology2, mask));
    assert(screened(cost1, mask) =~= screened(cost2, mask));
}

/// The labels of a watershed keep the background apart: an unmasked cell
/// has the label zero and a masked cell never has.
pub proof fn lemma_background_is_kept(labels: Seq<usize>, mask: Seq<bool>, i: int)
    requires
        labelled(labels, mask),
        0 <= i < mask.len(),
    ensures
        !mask[i] ==> labels[i] == 0,
        mask[i] ==> labels[i] != 0,
{
}

/// The number of cells of the grid, or nothing where it does not fit in
/// `usize`.
fn count_cells(shape: &[usize]) -> (n: Option<usize>)
    requires
        shape@.len() == 2 || shape@.len() == 3,
    ensures
        n matches Some(count) ==> count == cells(shape@),
        n is None ==> cells(shape@) > usize::MAX,
{
    let mut k: usize = 0;
    while k < shape.len()
        invariant
            shape@.len() == 2 || shape@.len() == 3,
            k <= shape@.len(),
            forall|j: int| 0 <= j < k ==> shape@[j] > 0,
        decreases shape@.len() - k,
    {
        if shape[k] == 0 {
            proof {
                let a = shape@[0] as int;
                let b = shape@[1] as int;
                if shape@.len() == 2 {
                    assert(a * b == 0) by (nonlinear_arith)
                        requires
                            a == 0 || b == 0,
                    ;
                } else {
                    let c = shape@[2] as int;
                    assert(a * b * c == 0) by (nonlinear_arith)
                        requires
                            a == 0 || b == 0 || c == 0,
                    ;
                }
            }
            return Some(0);
        }
        k += 1;
    }
    let plane = shape[0].checked_mul(shape[1]);
    if shape.len() == 2 {
        plane
    } else {
        match plane {
            Some(area) => area.checked_mul(shape[2]),
            None => {
                proof {
                    let a = shape@[0] as int;
                    let b = shape@[1] as int;
                    let c = shape@[2] as int;
                    assert(a * b * c >= a * b) by (nonlinear_arith)
                        requires
                            a * b > 0,
                            c >= 1,
                    ;
                }
                None
            },
        }
    }
}

/// The array with zero in place of the value of every unmasked cell.
fn screen(values: &IntArray, mask: &Vec<bool>) -> (kept: IntArray)
    requires
        values@.len() == mask@.len(),
    ensures
        kept@ == screened(values@, mask@),
{
    let size = mask.len();
    let mut kept: Vec<i64> = Vec::with_capacity(size);
    let mut i: usize = 0;
    while i < size
        invariant
            i <= size,
            size == mask@.len(),
            values@.len() == size,
            kept@.len() == i,
            forall|j: int| 0 <= j < i ==> kept@[j] == screened(values@, mask@)[j],
        decreases size - i,
    {
        if mask[i] {
            kept.push(values.get(i));
        } else {
            kept.push(zero());
        }
        i += 1;
    }
    let kept = IntArray::from_vec(kept);
    assert(kept@ =~= screened(values@, mask@));
    kept
}

/// The roots of the forest that grows on the grid of `shape`.
pub open spec fn forest_roots<M: QueueModel>(
    m: M,
    topology: Seq<i64>,
    mask: Seq<bool>,
    shape: Seq<usize>,
) -> Seq<usize> {
    if shape.len() == 2 {
        forest_of(AdjacencyGrid2D::of(shape[0], shape[1]), m, topology, mask).roots
    } else {
        forest_of(AdjacencyGrid3D::of(shape[0], shape[1], shape[2]), m, topology, mask).roots
    }
}

/// A root of every cell: of a masked cell a masked cell that is its own
/// root, of any other the cell itself.
pub open spec fn rooted_in_mask(roots: Seq<usize>, mask: Seq<bool>) -> bool {
    &&& roots.len() == mask.len()
    &&& forall|i: int|
        0 <= i < mask.len() ==> if #[trigger] mask[i] {
            &&& roots[i] < mask.len()
            &&& mask[roots[i] as int]
            &&& roots[roots[i] as int] == roots[i]
        } else {
            roots[i] == i
        }
}

/// Grows the forest on the grid of `shape`.
fn grow<Q: PriorityQueue>(
    queue: &mut Q,
    topology: &IntArray,
    mask: &Vec<bool>,
    shape: &[usize],
) -> (roots: IndexArray) where Q::V: QueueModel
    requires
        shape@.len() == 2 || shape@.len() == 3,
        cells(shape@) == mask@.len(),
        topology@.len() == mask@.len(),
        1 <= mask@.len() <= isize::MAX,
        old(queue)@.inv(),
        old(queue)@.statuses().len() == mask@.len(),
        keys_fit::<Q::V>(old(queue)@.values(), topology@, mask@),
    ensures
        roots@ == forest_roots(old(queue)@, topology@, mask@, shape@),
        rooted_in_mask(roots@, mask@),
        seeds_in_order(old(queue)@.values(), topology@, mask@) ==> seeds_are_lowest(
            roots@,
            topology@,
            mask@,
        ),
{
    if shape.len() == 2 {
        let adj = AdjacencyGrid2D::new(shape);
        proof {
            let a = shape@[0] as int;
            let b = shape@[1] as int;
            assert(b > 0) by (nonlinear_arith)
                requires
                    a * b >= 1,
                    b >= 0,
            ;
        }
        let roots = ift(&adj, queue, topology, mask);
        proof {
            lemma_forest_is_rooted(
                roots@,
                queue@.values(),
                queue@.statuses(),
                topology@,
                mask@,
                old(queue)@.values(),
            );
        }
        roots
    } else {
        let adj = AdjacencyGrid3D::new(shape);
        proof {
            let a = shape@[0] as int;
            let b = shape@[1] as int;
            let c = shape@[2] as int;
            assert(b > 0 && c > 0 && c * b <= a * b * c) by (nonlinear_arith)
                requires
                    a * b * c >= 1,
                    a >= 0,
                    b >= 0,
                    c >= 0,
            ;
        }
        let roots = ift(&adj, queue, topology, mask);
        proof {
            lemma_forest_is_rooted(
                roots@,
                queue@.values(),
                queue@.statuses(),
                topology@,
                mask@,
                old(queue)@.values(),
            );
        }
        roots
    }
}

/// In a finished forest the root of a masked cell is a masked cell that is
/// its own root, and an unmasked cell is its own root.
proof fn lemma_forest_is_rooted(
    roots: Seq<usize>,
    values: Seq<i64>,
    statuses: Seq<ElemStatus>,
    topology: Seq<i64>,
    mask: Seq<bool>,
    start: Seq<i64>,
)
    requires
        is_forest(roots, values, statuses, topology, mask, start),
    ensures
        rooted_in_mask(roots, mask),
{
    assert forall|i: int| 0 <= i < mask.len() implies if #[trigger] mask[i] {
        &&& roots[i] < mask.len()
        &&& mask[roots[i] as int]
        &&& roots[roots[i] as int] == roots[i]
    } else {
        roots[i] == i
    } by {}
}

/// Turns roots into labels, in place.
fn label(root: IndexArray, mask: &Vec<bool>) -> (labels: IndexArray)
    requires
        rooted_in_mask(root@, mask@),
        mask@.len() <= isize::MAX,
    ensures
        labels@ == labels_of(root@, mask@),
        labelled(labels@, mask@),
{
    let size = mask.len();
    let ghost roots = root@;
    let mut root = root;
    proof {
        assert forall|j: int| 0 <= j < size implies (#[trigger] roots[j]) < size by {
            if mask@[j] {
            }
        }
    }

    // a label is a root plus one: zero is kept for the cells outside the mask
    let mut i: usize = 0;
    while i < size
        invariant
            i <= size,
            size == mask@.len(),
            size <= isize::MAX,
            root@.len() == size,
            roots.len() == size,
            forall|j: int| 0 <= j < size ==> (#[trigger] roots[j]) < size,
            forall|j: int| 0 <= j < i ==> root@[j] == labels_of(roots, mask@)[j],
            forall|j: int| i <= j < size ==> root@[j] == roots[j],
        decreases size - i,
    {
        if mask[i] {
            assert(root@[i as int] == roots[i as int] && roots[i as int] < size);
            root.set(i, root.get(i) + 1);
        } else {
            root.set(i, 0);
        }
        i += 1;
    }
    proof {
        assert(root@ =~= labels_of(roots, mask@));
        assert forall|j: int| 0 <= j < mask@.len() implies if #[trigger] mask@[j] {
            &&& 1 <= root@[j] <= mask@.len()
            &&& mask@[root@[j] - 1]
            &&& root@[root@[j] - 1] == root@[j]
        } else {
            root@[j] == 0
        } by {
            if mask@[j] {
                assert(mask@[roots[j] as int]);
            }
        }
    }
    root
}

/// The seed of a basin is its lowest cell: no masked cell lies below the
/// cell that its label names.
pub open spec fn lowest_labelled(labels: Seq<usize>, topology: Seq<i64>, mask: Seq<bool>) -> bool {
    forall|i: int|
        0 <= i < mask.len() && #[trigger] mask[i] ==> topology[labels[i] - 1] <= topology[i]
}

/// Grows the forest on the grid of `shape` and labels its basins.
fn label_basins<Q: PriorityQueue>(
    queue: &mut Q,
    topology: &IntArray,
    mask: &Vec<bool>,
    shape: &[usize],
) -> (labels: Vec<usize>) where Q::V: QueueModel
    requires
        shape@.len() == 2 || shape@.len() == 3,
        cells(shape@) == mask@.len(),
        topology@.len() == mask@.len(),
        1 <= mask@.len() <= isize::MAX,
        old(queue)@.inv(),
        old(queue)@.statuses().len() == mask@.len(),
        keys_fit::<Q::V>(old(queue)@.values(), topology@, mask@),
    ensures
        labels@ == basins(old(queue)@, topology@, mask@, shape@),
        labelled(labels@, mask@),
        seeds_in_order(old(queue)@.values(), topology@, mask@) ==> lowest_labelled(
            labels@,
            topology@,
            mask@,
        ),
{
    let roots = grow(queue, topology, mask, shape);
    let ghost grown = roots@;
    let labels = label(roots, mask).to_vec();
    proof {
        if seeds_in_order(old(queue)@.values(), topology@, mask@) {
            assert forall|i: int| 0 <= i < mask@.len() && #[trigger] mask@[i] implies topology@[labels@[i]
                - 1] <= topology@[i] by {
                assert(labels@[i] == grown[i] + 1);
            }
        }
    }
    labels
}

/// The watershed from minima of integer elevations: the label of each cell
/// of the grid of `shape`, row-major as `topology` and `mask` are. The masked
/// cells compete from the cost `topology[i] + h`, queued in buckets. The seed
/// that a label names is the lowest cell of its basin.
pub fn watershed_from_minima(
    topology: &IntArray,
    mask: &Vec<bool>,
    shape: &[usize],
    h: i64,
) -> (res: Result<Vec<usize>, WatershedError>)
    ensures
        minima_outcome(res, topology@, mask@, shape@, h),
        res matches Ok(labels) ==> labelled(labels@, mask@) && lowest_labelled(
            labels@,
            topology@,
            mask@,
        ),
{
    if shape.len() != 2 && shape.len() != 3 {
        return Err(WatershedError::UnsupportedDimension);
    }
    let size = topology.len();
    match count_cells(shape) {
        Some(count) => {
            if count != size || mask.len() != size {
                return Err(WatershedError::ShapeMismatch);
            }
        },
        None => {
            return Err(WatershedError::ShapeMismatch);
        },
    }

    if h <= zero() {
        return Err(WatershedError::NonPositiveMargin);
    }
    if size == 0 {
        return Err(WatershedError::EmptyInput);
    }
    let mut seeds: usize = 0;
    let mut i: usize = 0;
    while i < size
        invariant
            i <= size,
            seeds <= i,
            size == topology@.len(),
            size > 0,
            h > 0,
            shape@.len() == 2 || shape@.len() == 3,
            cells(shape@) == size,
            mask@.len() == size,
            forall|j: int|
                0 <= j < i && #[trigger] mask@[j] ==> 0 <= topology@[j] && topology@[j] + h
                    < usize::MAX && topology@[j] + h <= i64::MAX,
            seeds == 0 ==> forall|j: int| 0 <= j < i ==> !mask@[j],
            seeds > 0 ==> h < usize::MAX,
        decreases size - i,
    {
        if mask[i] {
            let elevation = topology.get(i);
            assert(elevation == topology@[i as int]);
            if elevation < 0 || elevation > i64::MAX - h {
                return Err(WatershedError::CostOutOfRange);
            }
            match to_usize(elevation + h) {
                Some(bucket) => {
                    if bucket == usize::MAX {
                        return Err(WatershedError::CostOutOfRange);
                    }
                },
                None => {
                    return Err(WatershedError::CostOutOfRange);
                },
            }
            seeds += 1;
        }
        i += 1;
    }
    assert(costs_in_range(topology@, mask@, h));

    if seeds == 0 {
        // nothing competes: every cell is background
        let mut labels: Vec<usize> = Vec::with_capacity(size);
        while labels.len() < size
            invariant
                labels@.len() <= size,
                forall|j: int| 0 <= j < labels@.len() ==> labels@[j] == 0,
            decreases size - labels@.len(),
        {
            labels.push(0);
        }
        proof {
            assert(labels@ =~= basins(
                BucketModel::fresh(biased(screened(topology@, mask@), h)),
                screened(topology@, mask@),
                mask@,
                shape@,
            ));
        }
        return Ok(labels);
    }
    let kept = screen(topology, mask);
    let cost = kept.plus(h);
    proof {
        assert(cost@ =~= biased(kept@, h));
        lemma_max_of(cost@);
        assert forall|i: int, j: int|
            0 <= i < mask@.len() && 0 <= j < mask@.len() && mask@[i] && mask@[j]
                && #[trigger] no_later(cost@, i, j) implies kept@[i] <= kept@[j] by {
            assert(cost@[i] == kept@[i] + h);
            assert(cost@[j] == kept@[j] + h);
        }
    }
    let mut queue = BucketQueue::new(cost);
    let labels = label_basins(&mut queue, &kept, mask, shape);
    proof {
        assert forall|i: int| 0 <= i < mask@.len() && #[trigger] mask@[i] implies topology@[labels@[i]
            - 1] <= topology@[i] by {
            assert(mask@[labels@[i] - 1]);
            assert(kept@[labels@[i] - 1] <= kept@[i]);
        }
    }
    Ok(labels)
}

/// The watershed from costs of any order, given as integer keys that keep
/// the order: `topology` holds the key of each cell's elevation and `cost` the
/// key of the cost from which the cell competes as a seed. The masked cells
/// are queued in a heap. Where the costs are in the order of the elevations,
/// the seed that a label names is the lowest cell of its basin.
pub fn watershed_from_costs(
    topology: &IntArray,
    cost: IntArray,
    mask: &Vec<bool>,
    shape: &[usize],
) -> (res: Result<Vec<usize>, WatershedError>)
    ensures
        costs_outcome(res, topology@, cost@, mask@, shape@),
        res matches Ok(labels) ==> labelled(labels@, mask@),
        res matches Ok(labels) ==> (seeds_in_order(cost@, topology@, mask@) ==> lowest_labelled(
            labels@,
            topology@,
            mask@,
        )),
{
    if shape.len() != 2 && shape.len() != 3 {
        return Err(WatershedError::UnsupportedDimension);
    }
    let size = topology.len();
    match count_cells(shape) {
        Some(count) => {
            if count != size || cost.len() != size || mask.len() != size {
                return Err(WatershedError::ShapeMismatch);
            }
        },
        None => {
            return Err(WatershedError::ShapeMismatch);
        },
    }
    if size == 0 {
        return Err(WatershedError::EmptyInput);
    }
    let kept = screen(topology, mask);
    let seeds = screen(&cost, mask);
    proof {
        if seeds_in_order(cost@, topology@, mask@) {
            assert forall|i: int, j: int|
                0 <= i < mask@.len() && 0 <= j < mask@.len() && mask@[i] && mask@[j]
                    && #[trigger] no_later(seeds@, i, j) implies kept@[i] <= kept@[j] by {
                assert(no_later(cost@, i, j));
            }
        }
    }
    let mut queue = Heap::new(seeds);
    let labels = label_basins(&mut queue, &kept, mask, shape);
    proof {
        if seeds_in_order(cost@, topology@, mask@) {
            assert forall|i: int| 0 <= i < mask@.len() && #[trigger] mask@[i] implies topology@[labels@[i]
                - 1] <= topology@[i] by {
                assert(mask@[labels@[i] - 1]);
                assert(kept@[labels@[i] - 1] <= kept@[i]);
            }
        }
    }
    Ok(labels)
}

} // verus!
