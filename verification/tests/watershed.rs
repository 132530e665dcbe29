use pyift::adjacency::{AdjacencyGrid2D, AdjacencyGrid3D};
use pyift::array::IntArray;
use pyift::bucket_queue::BucketQueue;
use pyift::heap::Heap;
use pyift::ift::ift;
use pyift::priority_queue::{ElemStatus, PriorityQueue};
use pyift::watershed::{watershed_from_costs, watershed_from_minima, WatershedError};

#[test]
fn test_watershed_from_minima() {
    let image = IntArray::from_vec(vec![1, 2, 3, 4, 5, 6, 7, 8, 9]);
    let shape = [3, 3];
    let mask = vec![true; 9];

    let expected_labels = vec![1, 1, 1, 1, 1, 1, 1, 1, 1];

    let result = watershed_from_minima(&image, &mask, &shape, 1);
    assert_eq!(result, Ok(expected_labels));
}

#[test]
fn watershed_twice_gives_the_same_labels() {
    let image = IntArray::from_vec(vec![3, 1, 4, 1, 5, 9, 2, 6, 5, 3, 5, 8]);
    let mask = vec![true, true, true, false, true, true, true, true, false, true, true, true];
    let first = watershed_from_minima(&image, &mask, &[3, 4], 2);
    let second = watershed_from_minima(&image, &mask, &[3, 4], 2);
    assert!(first.is_ok());
    assert_eq!(first, second);
}

#[test]
fn watershed_two_seeds_split_at_the_ridge() {
    // one row: two minima at the ends, a ridge of 5 in the middle
    let image = IntArray::from_vec(vec![1, 3, 5, 3, 1]);
    let mask = vec![true; 5];
    let labels = watershed_from_minima(&image, &mask, &[1, 5], 1).unwrap();
    // the ridge is reached at cost 5 from both sides; the left seed was queued first
    assert_eq!(labels, vec![1, 1, 1, 5, 5]);
}

#[test]
fn watershed_two_seeds_split_on_an_uneven_row() {
    // the left slope is longer in cost, the right one steeper; the ridge of 5
    // is reached at cost 5 from the left first
    let image = IntArray::from_vec(vec![1, 2, 5, 4, 1]);
    let mask = vec![true; 5];
    assert_eq!(watershed_from_minima(&image, &mask, &[1, 5], 1), Ok(vec![1, 1, 1, 5, 5]));
    // a longer row, as a column of a grid of one column
    let image = IntArray::from_vec(vec![0, 3, 4, 9, 8, 6, 2]);
    let mask = vec![true; 7];
    assert_eq!(
        watershed_from_minima(&image, &mask, &[7, 1], 2),
        Ok(vec![1, 1, 1, 1, 7, 7, 7])
    );
}

#[test]
fn watershed_margin_merges_a_shallow_minimum() {
    // the minimum 4 at index 2 is one below its neighbors
    let image = IntArray::from_vec(vec![1, 5, 4, 5, 9]);
    let mask = vec![true; 5];
    // with a margin of 1 it competes at 5 and is its own basin
    assert_eq!(watershed_from_minima(&image, &mask, &[1, 5], 1), Ok(vec![1, 1, 3, 3, 3]));
    // with a margin of 3 it competes at 7 and is conquered from the left at 5
    assert_eq!(watershed_from_minima(&image, &mask, &[1, 5], 3), Ok(vec![1, 1, 1, 1, 1]));
}

#[test]
fn watershed_leaves_unmasked_cells_at_zero() {
    let image = IntArray::from_vec(vec![5, 0, 7]);
    let mask = vec![true, false, true];
    // the unmasked cell holds the smallest elevation and lies between the two others
    assert_eq!(watershed_from_minima(&image, &mask, &[1, 3], 1), Ok(vec![1, 0, 3]));
}

#[test]
fn watershed_does_not_depend_on_unmasked_elevations() {
    let mask = vec![true, true, false, true, true, true, false, true, true];
    let a = IntArray::from_vec(vec![4, 2, 0, 6, 3, 8, 0, 5, 1]);
    let b = IntArray::from_vec(vec![4, 2, 90, 6, 3, 8, 7, 5, 1]);
    let labels_a = watershed_from_minima(&a, &mask, &[3, 3], 1).unwrap();
    let labels_b = watershed_from_minima(&b, &mask, &[3, 3], 1).unwrap();
    assert_eq!(labels_a, labels_b);
    assert_eq!(labels_a[2], 0);
    assert_eq!(labels_a[6], 0);
    for i in [0, 1, 3, 4, 5, 7, 8] {
        assert!(labels_a[i] >= 1);
        assert!(mask[labels_a[i] - 1]);
    }
}

#[test]
fn watershed_with_nothing_masked_is_all_background() {
    let image = IntArray::from_vec(vec![2, 1, 3, 0]);
    let mask = vec![false; 4];
    assert_eq!(watershed_from_minima(&image, &mask, &[2, 2], 1), Ok(vec![0, 0, 0, 0]));
}

#[test]
fn watershed_of_a_constant_plateau_is_one_basin_per_seed_order() {
    // all elevations equal: the first cell is popped first and conquers the rest
    let image = IntArray::from_vec(vec![7; 6]);
    let mask = vec![true; 6];
    assert_eq!(watershed_from_minima(&image, &mask, &[2, 3], 1), Ok(vec![1; 6]));
}

#[test]
fn watershed_in_three_dimensions() {
    // 2 planes of 2 rows of 2 columns; minima at index 0 and at index 7.
    // Cell 0 is popped at cost 1 and reaches 4, 2 and 1 at cost 4; cell 7 is
    // popped next, at cost 2, and reaches 3, 5 and 6 at cost 8, which the cells
    // at cost 4 do not beat.
    let image = IntArray::from_vec(vec![0, 4, 4, 8, 4, 8, 8, 1]);
    let mask = vec![true; 8];
    let labels = watershed_from_minima(&image, &mask, &[2, 2, 2], 1).unwrap();
    assert_eq!(labels, vec![1, 1, 1, 8, 1, 8, 8, 8]);
}

#[test]
fn watershed_rejects_a_margin_that_is_not_positive() {
    let image = IntArray::from_vec(vec![1, 2, 3, 4]);
    let mask = vec![true; 4];
    assert_eq!(
        watershed_from_minima(&image, &mask, &[2, 2], 0),
        Err(WatershedError::NonPositiveMargin)
    );
    assert_eq!(
        watershed_from_minima(&image, &mask, &[2, 2], -3),
        Err(WatershedError::NonPositiveMargin)
    );
}

#[test]
fn watershed_rejects_other_dimensions() {
    let image = IntArray::from_vec(vec![1, 2, 3, 4]);
    let mask = vec![true; 4];
    assert_eq!(
        watershed_from_minima(&image, &mask, &[4], 1),
        Err(WatershedError::UnsupportedDimension)
    );
    assert_eq!(
        watershed_from_minima(&image, &mask, &[1, 2, 2, 1], 1),
        Err(WatershedError::UnsupportedDimension)
    );
    assert_eq!(
        watershed_from_minima(&image, &mask, &[], 0),
        Err(WatershedError::UnsupportedDimension)
    );
}

#[test]
fn watershed_rejects_a_shape_that_does_not_fit() {
    let image = IntArray::from_vec(vec![1, 2, 3, 4]);
    let mask = vec![true; 4];
    assert_eq!(
        watershed_from_minima(&image, &mask, &[2, 3], 1),
        Err(WatershedError::ShapeMismatch)
    );
    assert_eq!(
        watershed_from_minima(&image, &vec![true; 3], &[2, 2], 1),
        Err(WatershedError::ShapeMismatch)
    );
    assert_eq!(
        watershed_from_minima(&image, &mask, &[usize::MAX, usize::MAX], 1),
        Err(WatershedError::ShapeMismatch)
    );
    assert_eq!(
        watershed_from_minima(&image, &mask, &[usize::MAX, usize::MAX, 0], 0),
        Err(WatershedError::ShapeMismatch)
    );
}

#[test]
fn watershed_rejects_an_empty_grid() {
    let image = IntArray::from_vec(Vec::new());
    let mask: Vec<bool> = Vec::new();
    assert_eq!(
        watershed_from_minima(&image, &mask, &[0, 5], 1),
        Err(WatershedError::EmptyInput)
    );
    assert_eq!(
        watershed_from_minima(&image, &mask, &[usize::MAX, usize::MAX, 0], 1),
        Err(WatershedError::EmptyInput)
    );
    // the margin is looked at before the size
    assert_eq!(
        watershed_from_minima(&image, &mask, &[0, 5], 0),
        Err(WatershedError::NonPositiveMargin)
    );
}

#[test]
fn watershed_rejects_elevations_out_of_range() {
    let mask = vec![true; 2];
    assert_eq!(
        watershed_from_minima(&IntArray::from_vec(vec![1, -1]), &mask, &[1, 2], 1),
        Err(WatershedError::CostOutOfRange)
    );
    assert_eq!(
        watershed_from_minima(&IntArray::from_vec(vec![i64::MAX, 1]), &mask, &[1, 2], 1),
        Err(WatershedError::CostOutOfRange)
    );
    assert_eq!(
        watershed_from_minima(&IntArray::from_vec(vec![1, i64::MAX - 1]), &mask, &[1, 2], 2),
        Err(WatershedError::CostOutOfRange)
    );
}

#[test]
fn watershed_takes_any_elevation_on_an_unmasked_cell() {
    assert_eq!(
        watershed_from_minima(&IntArray::from_vec(vec![1, -1]), &vec![true, false], &[1, 2], 1),
        Ok(vec![1, 0])
    );
    assert_eq!(
        watershed_from_minima(
            &IntArray::from_vec(vec![i64::MAX, 4, i64::MIN, 2]),
            &vec![false, true, false, true],
            &[2, 2],
            3
        ),
        // cell 3 is popped at cost 5 and reaches cell 1, above it, at cost 4
        Ok(vec![0, 4, 0, 4])
    );
    // nothing is masked: nothing is looked at but the margin and the grid
    assert_eq!(
        watershed_from_minima(
            &IntArray::from_vec(vec![-7, i64::MAX]),
            &vec![false, false],
            &[2, 1],
            i64::MAX
        ),
        Ok(vec![0, 0])
    );
}

#[test]
fn watershed_seed_is_the_lowest_cell_of_its_basin() {
    let elevations = vec![6, 2, 7, 3, 9, 4, 8, 1, 5, 7, 2, 6, 3, 8, 0, 9];
    let mask = vec![
        true, true, true, false, true, true, true, true, true, false, true, true, true, true,
        true, true,
    ];
    let labels =
        watershed_from_minima(&IntArray::from_vec(elevations.clone()), &mask, &[4, 4], 2).unwrap();
    for i in 0..16 {
        if mask[i] {
            assert!(labels[i] >= 1);
            let seed = labels[i] - 1;
            assert!(mask[seed]);
            assert_eq!(labels[seed], labels[i]);
            assert!(elevations[seed] <= elevations[i]);
        } else {
            assert_eq!(labels[i], 0);
        }
    }
}

#[test]
fn watershed_from_costs_takes_negative_keys() {
    let topology = IntArray::from_vec(vec![-10, -3, 5, -3, -9]);
    let cost = IntArray::from_vec(vec![-8, -1, 7, -1, -7]);
    let mask = vec![true; 5];
    let labels = watershed_from_costs(&topology, cost, &mask, &[1, 5]).unwrap();
    assert_eq!(labels, vec![1, 1, 1, 5, 5]);
}

#[test]
fn watershed_from_costs_on_the_plateau_of_nine() {
    let topology = IntArray::from_vec(vec![1, 2, 3, 4, 5, 6, 7, 8, 9]);
    let cost = IntArray::from_vec(vec![2, 3, 4, 5, 6, 7, 8, 9, 10]);
    let mask = vec![true; 9];
    assert_eq!(watershed_from_costs(&topology, cost, &mask, &[3, 3]), Ok(vec![1; 9]));
}

#[test]
fn watershed_from_costs_rejects_what_does_not_fit() {
    let topology = IntArray::from_vec(vec![1, 2, 3, 4]);
    let mask = vec![true; 4];
    assert_eq!(
        watershed_from_costs(&topology, IntArray::from_vec(vec![1, 2, 3, 4]), &mask, &[4]),
        Err(WatershedError::UnsupportedDimension)
    );
    assert_eq!(
        watershed_from_costs(&topology, IntArray::from_vec(vec![1, 2, 3]), &mask, &[2, 2]),
        Err(WatershedError::ShapeMismatch)
    );
    assert_eq!(
        watershed_from_costs(&topology, IntArray::from_vec(vec![1, 2, 3, 4]), &mask, &[2, 1, 3]),
        Err(WatershedError::ShapeMismatch)
    );
    assert_eq!(
        watershed_from_costs(
            &IntArray::from_vec(Vec::new()),
            IntArray::from_vec(Vec::new()),
            &Vec::new(),
            &[3, 0, 3]
        ),
        Err(WatershedError::EmptyInput)
    );
}

#[test]
fn forest_costs_are_not_below_the_costs_of_their_roots() {
    let elevations = vec![6, 2, 7, 3, 9, 4, 8, 1, 5, 7, 2, 6];
    let mask = vec![true, true, true, true, false, true, true, true, true, true, true, false];
    let topology = IntArray::from_vec(elevations.clone());
    let mut queue = BucketQueue::new(topology.plus(2));
    let adj = AdjacencyGrid2D::new(&[3, 4]);
    let roots = ift(&adj, &mut queue, &topology, &mask).to_vec();
    assert_eq!(roots.len(), 12);
    for i in 0..12 {
        if mask[i] {
            let r = roots[i];
            assert!(mask[r]);
            assert_eq!(roots[r], r);
            assert_eq!(queue.get_status(i), ElemStatus::POPPED);
            assert_eq!(queue.get_value(r), elevations[r]);
            assert!(queue.get_value(i) >= queue.get_value(r));
            assert!(queue.get_value(i) >= elevations[i]);
        } else {
            assert_eq!(roots[i], i);
            assert_eq!(queue.get_status(i), ElemStatus::OUT);
            assert_eq!(queue.get_value(i), elevations[i] + 2);
        }
    }
}

#[test]
fn forest_on_a_heap_in_three_dimensions() {
    let elevations = vec![0, 4, 4, 8, 4, 8, 8, 1];
    let topology = IntArray::from_vec(elevations.clone());
    let mut heap = Heap::new(topology.plus(1));
    let adj = AdjacencyGrid3D::new(&[2, 2, 2]);
    let mask = vec![true; 8];
    let roots = ift(&adj, &mut heap, &topology, &mask);
    assert_eq!(roots.get(3), 7);
    assert_eq!(roots.to_vec(), vec![0, 0, 0, 7, 0, 7, 7, 7]);
    assert_eq!(heap.get_value(0), 0);
    assert_eq!(heap.get_value(7), 1);
    assert_eq!(heap.get_value(3), 8);
    assert!(heap.is_empty());
}
