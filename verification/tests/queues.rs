use pyift::array::{IndexArray, IntArray};
use pyift::bucket_queue::BucketQueue;
use pyift::heap::Heap;
use pyift::priority_queue::{ElemStatus, PriorityQueue, QueueError};

#[test]
fn test_bucket_queue() {
    let values = IntArray::from_vec(vec![3, 1, 2, 3]);

    let mut queue = BucketQueue::new(values);

    assert!(queue.is_empty());

    // Insert a new element
    queue.insert(0, -1).unwrap();

    assert!(!queue.is_empty());
    assert_eq!(queue.min_priority(), 3);
    assert_eq!(queue.bucket_len(3), 1);
    assert_eq!(queue.status[0], ElemStatus::IN);

    // Insert smaller element
    queue.insert(1, 0).unwrap();

    assert_eq!(queue.bucket_len(1), 1);
    assert_eq!(queue.status[1], ElemStatus::IN);

    // Insert equal element
    queue.insert(3, 0).unwrap();

    assert_eq!(queue.bucket_len(3), 2);
    assert_eq!(queue.status[3], ElemStatus::IN);

    // Insert last element
    queue.insert(2, 0).unwrap();

    assert_eq!(queue.bucket_len(2), 1);
    assert!(!queue.is_full()); // it's never full
    assert!(!queue.is_empty());

    // Pop element
    assert_eq!(queue.pop().unwrap(), 1);
    assert_eq!(queue.status[1], ElemStatus::POPPED);

    // Increase value from 2
    queue.update_value(2, 5, -1);

    assert_eq!(queue.bucket_len(5), 1);
    assert_eq!(queue.bucket_len(2), 0); // must be empty because 5 is greater than the previous value

    // Return to the value of before
    queue.update_value(2, 2, -1);

    queue.is_empty(); // refreshing min. priority bucket
    assert_eq!(queue.bucket_len(2), 1);
    assert_eq!(queue.bucket_len(5), 1); // because the update is a smaller value this bucket is not empty

    // Popping again
    assert_eq!(queue.pop().unwrap(), 2);

    // Remove element
    queue.remove(0).unwrap();

    assert_eq!(queue.bucket_len(3), 1); // single element left
    assert!(!queue.is_full());

    queue.reset();
    assert!(queue.is_empty());

    for i in 0..queue.status.len() {
        assert_eq!(queue.status[i], ElemStatus::OUT);
    }
}

#[test]
fn test_heap() {
    let values = IntArray::from_vec(vec![3, 1, 2, 4]);

    let mut heap = Heap::new(values);

    heap.is_empty();

    // Assert that the Heap was created correctly
    assert_eq!(heap.size(), 4);

    // Insert a new element
    heap.insert(0, -1).unwrap();

    assert!(!heap.is_empty());
    assert_eq!(heap.last(), 0);
    assert_eq!(heap.pos(0), 0);
    assert_eq!(heap.status[0], ElemStatus::IN);

    // Insert smaller element
    heap.insert(1, 0).unwrap();

    assert_eq!(heap.last(), 1);
    assert_eq!(heap.pos(1), 0);
    assert_eq!(heap.pos(0), 1);

    // Insert larger element
    heap.insert(3, 0).unwrap();

    assert_eq!(heap.last(), 2);
    assert_eq!(heap.pos(0), 1);
    assert_eq!(heap.pos(1), 0);
    assert_eq!(heap.pos(3), 2);

    // Insert last element
    heap.insert(2, 0).unwrap();

    assert!(heap.is_full());
    assert!(!heap.is_empty());

    // Pop element
    assert_eq!(heap.pop().unwrap(), 1);
    assert_eq!(heap.status[1], ElemStatus::POPPED);

    // Increase value
    assert_eq!(heap.pos(2), 0);
    heap.update_value(2, 5, -1);

    assert_eq!(heap.pos(0), 0);

    // Return to the value of before
    heap.update_value(2, 2, -1);

    assert_eq!(heap.pos(2), 0);

    // Popping again
    assert_eq!(heap.pop().unwrap(), 2);

    // Remove element
    heap.remove(0).unwrap();

    assert_eq!(heap.last(), 0); // single element left
    assert!(!heap.is_full());

    heap.reset();
    assert!(heap.is_empty());

    for i in 0..heap.size() {
        assert_eq!(heap.status[i], ElemStatus::OUT);
    }
}

#[test]
fn array_keeps_the_elements_of_its_vector() {
    let mut a = IntArray::from_vec(vec![4, -7, 0, 9]);
    assert_eq!(a.len(), 4);
    assert_eq!(a.get(0), 4);
    assert_eq!(a.get(1), -7);
    assert_eq!(a.get(3), 9);
    assert_eq!(a.to_vec(), vec![4, -7, 0, 9]);
    a.set(1, 12);
    assert_eq!(a.get(1), 12);
    assert_eq!(a.to_vec(), vec![4, 12, 0, 9]);
    assert_eq!(IntArray::from_vec(Vec::new()).len(), 0);
}

#[test]
fn index_array_keeps_the_elements_of_its_vector() {
    let mut a = IndexArray::from_shape_vec(3, vec![5, 0, 9]).unwrap();
    assert_eq!(a.get(0), 5);
    assert_eq!(a.get(2), 9);
    a.set(1, 4);
    assert_eq!(a.get(1), 4);
    assert_eq!(a.to_vec(), vec![5, 4, 9]);
    assert!(IndexArray::from_shape_vec(2, vec![5, 0, 9]).is_none());
    assert!(IndexArray::from_shape_vec(4, vec![5, 0, 9]).is_none());
    assert_eq!(IndexArray::from_shape_vec(0, Vec::new()).unwrap().to_vec(), Vec::<usize>::new());
}

#[test]
fn array_plus_adds_to_every_element() {
    let a = IntArray::from_vec(vec![1, -2, 30]);
    let b = a.plus(5);
    assert_eq!(b.to_vec(), vec![6, 3, 35]);
    assert_eq!(a.to_vec(), vec![1, -2, 30]);
    assert_eq!(pyift::array::plus(40, 2), 42);
}

#[test]
fn array_max_is_the_largest_element() {
    assert_eq!(IntArray::from_vec(vec![3, 8, -1, 8, 2]).max(), Some(8));
    assert_eq!(IntArray::from_vec(vec![-5, -9]).max(), Some(-5));
    assert_eq!(IntArray::from_vec(vec![7]).max(), Some(7));
    assert_eq!(IntArray::from_vec(Vec::new()).max(), None);
}

#[test]
fn bucket_queue_starts_with_a_bucket_for_each_cost() {
    let queue = BucketQueue::new(IntArray::from_vec(vec![2, 6, 0]));
    assert_eq!(queue.n_buckets(), 7);
    assert_eq!(queue.min_priority(), 7);
    assert_eq!(queue.max_priority(), 0);
    for k in 0..7 {
        assert_eq!(queue.bucket_len(k), 0);
    }
    assert_eq!(queue.get_value(1), 6);
    assert_eq!(queue.get_status(1), ElemStatus::OUT);
}

#[test]
fn bucket_queue_pops_by_cost_then_by_arrival() {
    let mut queue = BucketQueue::new(IntArray::from_vec(vec![4, 1, 4, 0, 1]));
    for i in 0..5 {
        queue.insert(i, -1).unwrap();
    }
    assert_eq!(queue.pop(), Ok(3));
    assert_eq!(queue.pop(), Ok(1));
    assert_eq!(queue.pop(), Ok(4));
    assert_eq!(queue.pop(), Ok(0));
    assert_eq!(queue.pop(), Ok(2));
    assert_eq!(queue.pop(), Err(QueueError::Empty));
    assert!(queue.is_empty());
    for i in 0..5 {
        assert_eq!(queue.get_status(i), ElemStatus::POPPED);
    }
}

#[test]
fn bucket_queue_grows_its_buckets_for_a_larger_cost() {
    let mut queue = BucketQueue::new(IntArray::from_vec(vec![1, 2]));
    assert_eq!(queue.n_buckets(), 3);
    queue.update_value(0, 9, -1);
    assert_eq!(queue.n_buckets(), 3);
    queue.insert(0, -1).unwrap();
    assert_eq!(queue.n_buckets(), 10);
    assert_eq!(queue.bucket_len(9), 1);
    assert_eq!(queue.min_priority(), 3);
    assert_eq!(queue.max_priority(), 9);
    assert_eq!(queue.pop(), Ok(0));
}

#[test]
fn bucket_queue_remove_fails_on_what_is_not_queued() {
    let mut queue = BucketQueue::new(IntArray::from_vec(vec![1, 2, 3]));
    assert_eq!(queue.remove(0), Err(QueueError::NotQueued));
    queue.insert(0, -1).unwrap();
    queue.insert(1, -1).unwrap();
    assert_eq!(queue.remove(0), Ok(()));
    assert_eq!(queue.get_status(0), ElemStatus::OUT);
    assert_eq!(queue.remove(0), Err(QueueError::NotQueued));
    assert_eq!(queue.pop(), Ok(1));
    assert_eq!(queue.remove(1), Err(QueueError::NotQueued));
    assert_eq!(queue.get_status(1), ElemStatus::POPPED);
    assert_eq!(queue.get_value(0), 1);
}

#[test]
fn bucket_queue_remove_takes_the_first_of_equal_entries() {
    let mut queue = BucketQueue::new(IntArray::from_vec(vec![2, 2, 2]));
    queue.insert(0, -1).unwrap();
    queue.insert(1, -1).unwrap();
    queue.insert(2, -1).unwrap();
    queue.remove(1).unwrap();
    assert_eq!(queue.bucket_len(2), 2);
    assert_eq!(queue.pop(), Ok(0));
    assert_eq!(queue.pop(), Ok(2));
    assert!(queue.is_empty());
}

#[test]
fn bucket_queue_update_of_what_is_not_queued_only_sets_the_cost() {
    let mut queue = BucketQueue::new(IntArray::from_vec(vec![3, 1]));
    queue.update_value(0, -4, -1);
    assert_eq!(queue.get_value(0), -4);
    assert_eq!(queue.get_status(0), ElemStatus::OUT);
    assert!(queue.is_empty());
    assert_eq!(queue.bucket_len(3), 0);
}

#[test]
fn bucket_queue_decrease_leaves_a_stale_entry_that_is_screened_out() {
    let mut queue = BucketQueue::new(IntArray::from_vec(vec![5, 3]));
    queue.insert(0, -1).unwrap();
    queue.insert(1, -1).unwrap();
    queue.update_value(0, 2, 1);
    assert_eq!(queue.bucket_len(5), 1);
    assert_eq!(queue.bucket_len(2), 1);
    assert_eq!(queue.min_priority(), 2);
    assert_eq!(queue.pop(), Ok(0));
    assert_eq!(queue.pop(), Ok(1));
    // the entry left in bucket 5 is of a popped index
    assert_eq!(queue.bucket_len(5), 1);
    assert!(queue.is_empty());
    assert_eq!(queue.bucket_len(5), 0);
    assert_eq!(queue.pop(), Err(QueueError::Empty));
}

#[test]
fn bucket_queue_decrease_then_larger_increase_pops_before_its_turn() {
    // the known limitation: index 0 goes from 5 down to 2 and up to 7, and
    // still sits in bucket 5, from where it is popped ahead of index 1 at 6
    let mut queue = BucketQueue::new(IntArray::from_vec(vec![5, 6]));
    queue.insert(0, -1).unwrap();
    queue.insert(1, -1).unwrap();
    queue.update_value(0, 2, -1);
    queue.update_value(0, 7, -1);
    assert_eq!(queue.bucket_len(2), 0);
    assert_eq!(queue.bucket_len(5), 1);
    assert_eq!(queue.bucket_len(7), 1);
    assert_eq!(queue.get_value(0), 7);
    assert_eq!(queue.pop(), Ok(0));
    assert_eq!(queue.pop(), Ok(1));
    assert!(queue.is_empty());
}

#[test]
fn bucket_queue_equal_update_moves_to_the_back_of_the_bucket() {
    let mut queue = BucketQueue::new(IntArray::from_vec(vec![2, 2]));
    queue.insert(0, -1).unwrap();
    queue.insert(1, -1).unwrap();
    queue.update_value(0, 2, -1);
    assert_eq!(queue.bucket_len(2), 2);
    assert_eq!(queue.get_status(0), ElemStatus::IN);
    assert_eq!(queue.get_value(0), 2);
    assert_eq!(queue.pop(), Ok(1));
    assert_eq!(queue.pop(), Ok(0));
    assert!(queue.is_empty());
}

#[test]
fn bucket_queue_equal_update_keeps_one_entry() {
    let mut queue = BucketQueue::new(IntArray::from_vec(vec![3, 3]));
    queue.insert(0, -1).unwrap();
    queue.insert(1, -1).unwrap();
    queue.update_value(0, 3, -1);
    assert_eq!(queue.bucket_len(3), 2);
    assert_eq!(queue.pop(), Ok(1));
    assert_eq!(queue.pop(), Ok(0));
    assert_eq!(queue.bucket_len(3), 0);
    assert!(queue.is_empty());
}

#[test]
fn bucket_queue_lower_bound_does_not_come_down_while_costs_only_grow() {
    let mut queue = BucketQueue::new(IntArray::from_vec(vec![2, 4, 4, 6]));
    for i in 0..4 {
        queue.insert(i, -1).unwrap();
    }
    let mut low = queue.min_priority();
    assert_eq!(low, 2);
    assert!(!queue.is_empty());
    assert_eq!(queue.min_priority(), 2);
    queue.update_value(0, 5, -1);
    assert!(queue.min_priority() >= low);
    assert!(!queue.is_empty());
    assert_eq!(queue.min_priority(), 4);
    low = queue.min_priority();
    queue.update_value(1, 8, -1);
    assert!(queue.min_priority() >= low);
    assert_eq!(queue.pop(), Ok(2));
    assert!(queue.min_priority() >= low);
    low = queue.min_priority();
    queue.update_value(3, 6, -1);
    assert!(queue.min_priority() >= low);
    assert!(!queue.is_empty());
    assert_eq!(queue.min_priority(), 5);
    assert_eq!(queue.pop(), Ok(0));
    assert_eq!(queue.pop(), Ok(3));
    assert_eq!(queue.pop(), Ok(1));
    assert_eq!(queue.min_priority(), 8);
}

#[test]
fn bucket_queue_reset_clears_whatever_came_before() {
    let mut queue = BucketQueue::new(IntArray::from_vec(vec![2, 0, 1, 2]));
    queue.insert(0, -1).unwrap();
    queue.insert(1, -1).unwrap();
    queue.insert(2, -1).unwrap();
    queue.pop().unwrap();
    queue.update_value(2, 0, -1);
    queue.remove(0).unwrap();
    queue.reset();
    assert!(queue.is_empty());
    assert_eq!(queue.pop(), Err(QueueError::Empty));
    for i in 0..4 {
        assert_eq!(queue.get_status(i), ElemStatus::OUT);
    }
    for k in 0..queue.n_buckets() {
        assert_eq!(queue.bucket_len(k), 0);
    }
    assert_eq!(queue.min_priority(), 4);
    assert_eq!(queue.max_priority(), 0);
    assert_eq!(queue.get_value(2), 0);
    // and the queue works again
    queue.insert(3, -1).unwrap();
    assert_eq!(queue.pop(), Ok(3));
}

#[test]
fn heap_starts_empty() {
    let mut heap = Heap::new(IntArray::from_vec(vec![5, -3, 7]));
    assert_eq!(heap.size(), 3);
    assert_eq!(heap.last(), 3);
    assert!(heap.is_empty());
    assert!(!heap.is_full());
    for i in 0..3 {
        assert_eq!(heap.pos(i), i);
        assert_eq!(heap.get_status(i), ElemStatus::OUT);
    }
    assert_eq!(heap.get_value(1), -3);
    assert_eq!(heap.pop(), Err(QueueError::Empty));
}

#[test]
fn heap_pops_in_order_of_cost() {
    let mut heap = Heap::new(IntArray::from_vec(vec![9, -2, 4, 0, 7, -8]));
    for i in 0..6 {
        heap.insert(i, -1).unwrap();
    }
    assert!(heap.is_full());
    assert_eq!(heap.pop(), Ok(5));
    assert_eq!(heap.pop(), Ok(1));
    assert_eq!(heap.pop(), Ok(3));
    assert_eq!(heap.pop(), Ok(2));
    assert_eq!(heap.pop(), Ok(4));
    assert_eq!(heap.pop(), Ok(0));
    assert_eq!(heap.pop(), Err(QueueError::Empty));
    assert_eq!(heap.last(), 6);
    for i in 0..6 {
        assert_eq!(heap.pos(i), 6);
        assert_eq!(heap.get_status(i), ElemStatus::POPPED);
    }
}

#[test]
fn heap_breaks_ties_by_age() {
    // all costs equal: index 0 is the seed, 1 its child, 2 the child of 1
    let mut heap = Heap::new(IntArray::from_vec(vec![5, 5, 5, 5]));
    heap.insert(2, -1).unwrap();
    heap.insert(1, -1).unwrap();
    heap.insert(0, -1).unwrap();
    // ages: give 1 the age 1 and 2 the age 2 by a change of cost and back
    heap.update_value(1, 4, 0);
    heap.update_value(2, 4, 1);
    heap.update_value(1, 5, 0);
    heap.update_value(2, 5, 1);
    heap.insert(3, 2).unwrap();
    assert_eq!(heap.pop(), Ok(0));
    assert_eq!(heap.pop(), Ok(1));
    assert_eq!(heap.pop(), Ok(2));
    assert_eq!(heap.pop(), Ok(3));
}

#[test]
fn heap_insert_fails_when_full() {
    let mut heap = Heap::new(IntArray::from_vec(vec![1, 2]));
    heap.insert(0, -1).unwrap();
    assert!(!heap.is_full());
    heap.insert(1, -1).unwrap();
    assert!(heap.is_full());
    assert_eq!(heap.insert(0, -1), Err(QueueError::Full));
    assert_eq!(heap.last(), 1);
    assert_eq!(heap.pop(), Ok(0));
    assert_eq!(heap.pop(), Ok(1));
}

#[test]
fn heap_remove_takes_out_the_index_and_keeps_its_cost() {
    let mut heap = Heap::new(IntArray::from_vec(vec![6, 2, 9, 4, 1]));
    for i in 0..5 {
        heap.insert(i, -1).unwrap();
    }
    assert_eq!(heap.remove(3), Ok(()));
    assert_eq!(heap.get_status(3), ElemStatus::OUT);
    assert_eq!(heap.get_value(3), 4);
    assert_eq!(heap.last(), 3);
    assert_eq!(heap.remove(3), Err(QueueError::NotQueued));
    assert_eq!(heap.pop(), Ok(4));
    assert_eq!(heap.remove(4), Err(QueueError::NotQueued));
    assert_eq!(heap.pop(), Ok(1));
    // an index that was taken out can be queued again
    heap.insert(3, -1).unwrap();
    assert_eq!(heap.pop(), Ok(3));
    assert_eq!(heap.pop(), Ok(0));
    assert_eq!(heap.pop(), Ok(2));
}

#[test]
fn heap_remove_works_among_least_costs() {
    // every cost is the least `i64`: the removed index still reaches the root
    let mut heap = Heap::new(IntArray::from_vec(vec![i64::MIN, i64::MIN, i64::MIN]));
    heap.insert(0, -1).unwrap();
    heap.insert(1, -1).unwrap();
    heap.insert(2, -1).unwrap();
    assert_eq!(heap.remove(2), Ok(()));
    assert_eq!(heap.get_status(0), ElemStatus::IN);
    assert_eq!(heap.get_status(1), ElemStatus::IN);
    assert_eq!(heap.get_status(2), ElemStatus::OUT);
    assert_eq!(heap.get_value(2), i64::MIN);
    assert_eq!(heap.remove(1), Ok(()));
    assert_eq!(heap.pop(), Ok(0));
    assert!(heap.is_empty());
}

#[test]
fn heap_remove_on_a_new_heap_fails_and_changes_nothing() {
    let mut heap = Heap::new(IntArray::from_vec(vec![3, 4]));
    assert_eq!(heap.remove(1), Err(QueueError::NotQueued));
    assert_eq!(heap.get_value(1), 4);
    assert_eq!(heap.get_status(1), ElemStatus::OUT);
    assert!(heap.is_empty());
}

#[test]
fn heap_update_moves_a_queued_index() {
    let mut heap = Heap::new(IntArray::from_vec(vec![10, 20, 30, 40]));
    for i in 0..4 {
        heap.insert(i, -1).unwrap();
    }
    heap.update_value(3, 5, 0);
    assert_eq!(heap.pos(3), 0);
    heap.update_value(3, 25, 0);
    assert_eq!(heap.get_value(3), 25);
    assert_eq!(heap.pop(), Ok(0));
    assert_eq!(heap.pop(), Ok(1));
    assert_eq!(heap.pop(), Ok(3));
    assert_eq!(heap.pop(), Ok(2));
}

#[test]
fn heap_update_of_what_is_not_queued_only_sets_the_cost() {
    let mut heap = Heap::new(IntArray::from_vec(vec![10, 20]));
    heap.insert(0, -1).unwrap();
    heap.update_value(1, 1, -1);
    assert_eq!(heap.get_value(1), 1);
    assert_eq!(heap.get_status(1), ElemStatus::OUT);
    assert_eq!(heap.pos(0), 0);
    assert_eq!(heap.pop(), Ok(0));
    heap.update_value(0, 99, -1);
    assert_eq!(heap.get_value(0), 99);
    assert_eq!(heap.get_status(0), ElemStatus::POPPED);
}

#[test]
fn heap_keeps_its_order_through_a_mix_of_operations() {
    let costs = vec![50, 10, 40, 20, 30, 60, 5, 45];
    let mut heap = Heap::new(IntArray::from_vec(costs));
    for i in 0..8 {
        heap.insert(i, -1).unwrap();
    }
    heap.update_value(5, 1, 6);
    heap.update_value(6, 70, -1);
    heap.remove(2).unwrap();
    assert_eq!(heap.pop(), Ok(5));
    heap.update_value(0, 15, 5);
    heap.insert(2, 5).unwrap();
    let mut popped = Vec::new();
    let mut costs_popped = Vec::new();
    while !heap.is_empty() {
        let index = heap.pop().unwrap();
        costs_popped.push(heap.get_value(index));
        popped.push(index);
    }
    assert_eq!(popped, vec![1, 0, 3, 4, 2, 7, 6]);
    assert_eq!(costs_popped, vec![10, 15, 20, 30, 40, 45, 70]);
}

#[test]
fn heap_reset_clears_whatever_came_before() {
    let mut heap = Heap::new(IntArray::from_vec(vec![3, 1, 2]));
    heap.insert(0, -1).unwrap();
    heap.insert(1, 0).unwrap();
    heap.pop().unwrap();
    heap.insert(2, 1).unwrap();
    heap.reset();
    assert!(heap.is_empty());
    assert_eq!(heap.last(), 3);
    for i in 0..3 {
        assert_eq!(heap.get_status(i), ElemStatus::OUT);
        assert_eq!(heap.pos(i), i);
    }
    assert_eq!(heap.get_value(1), 1);
    heap.insert(2, -1).unwrap();
    heap.insert(0, -1).unwrap();
    assert_eq!(heap.pop(), Ok(2));
}
