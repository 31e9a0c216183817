use cyma::utils::RingBuffer;

fn filled(size: usize, values: &[i32]) -> RingBuffer<i32> {
    let mut rb = RingBuffer::<i32>::new(size);
    for value in values {
        rb.enqueue(*value);
    }
    rb
}

#[test]
fn round_trip() {
    let mut rb = RingBuffer::<f32>::new(4);

    rb.enqueue(1.0);
    rb.enqueue(2.0);
    rb.enqueue(3.0);
    assert_eq!(rb.to_vec(), vec![0.0, 1.0, 2.0, 3.0]);

    rb.enqueue(4.0);
    rb.enqueue(5.0);
    rb.enqueue(6.0);
    assert_eq!(rb.to_vec(), vec![3.0, 4.0, 5.0, 6.0]);
}

#[test]
fn new_is_all_default() {
    let rb = RingBuffer::<i32>::new(5);
    assert_eq!(rb.len(), 5);
    assert_eq!(rb.head(), 0);
    assert_eq!(rb.to_vec(), vec![0; 5]);

    let pairs = RingBuffer::<(i32, i32)>::new(2);
    assert_eq!(pairs.to_vec(), vec![(0, 0), (0, 0)]);
}

#[test]
fn new_without_slots() {
    let rb = RingBuffer::<i32>::new(0);
    assert_eq!(rb.len(), 0);
    assert_eq!(rb.head(), 0);
    assert_eq!(rb.to_vec(), Vec::<i32>::new());
}

#[test]
fn default_has_no_slots() {
    let rb: RingBuffer<i32> = Default::default();
    assert_eq!(rb.len(), 0);
    assert_eq!(rb.head(), 0);
    assert_eq!(rb, RingBuffer::<i32>::new(0));
}

#[test]
fn enqueue_moves_the_cursor_around() {
    let mut rb = RingBuffer::<i32>::new(3);
    rb.enqueue(1);
    assert_eq!(rb.head(), 1);
    assert_eq!((*rb).to_vec(), vec![1, 0, 0]);
    rb.enqueue(2);
    assert_eq!(rb.head(), 2);
    rb.enqueue(3);
    assert_eq!(rb.head(), 0);
    assert_eq!((*rb).to_vec(), vec![1, 2, 3]);
    rb.enqueue(4);
    assert_eq!(rb.head(), 1);
    assert_eq!((*rb).to_vec(), vec![4, 2, 3]);
    assert_eq!(rb.to_vec(), vec![2, 3, 4]);
}

#[test]
fn enqueue_into_a_single_slot() {
    let mut rb = RingBuffer::<i32>::new(1);
    rb.enqueue(7);
    assert_eq!(rb.head(), 0);
    assert_eq!(rb.to_vec(), vec![7]);
    assert_eq!(rb.peek(), 7);
    rb.enqueue(8);
    assert_eq!(rb.to_vec(), vec![8]);
}

#[test]
fn peek_before_any_enqueue() {
    let rb = RingBuffer::<i32>::new(3);
    assert_eq!(rb.peek(), 0);
}

#[test]
fn clear_keeps_size_and_cursor() {
    let mut rb = filled(4, &[1, 2, 3, 4, 5, 6]);
    assert_eq!(rb.head(), 2);
    rb.clear();
    assert_eq!(rb.len(), 4);
    assert_eq!(rb.head(), 2);
    assert_eq!(rb.to_vec(), vec![0; 4]);
}

#[test]
fn shrink_keeps_the_most_recent() {
    // The cursor is behind the elements that stay.
    let mut rb = filled(4, &[1, 2, 3, 4, 5, 6, 7]);
    assert_eq!(rb.head(), 3);
    rb.shrink(2);
    assert_eq!(rb.head(), 0);
    assert_eq!((*rb).to_vec(), vec![6, 7]);
    assert_eq!(rb.to_vec(), vec![6, 7]);

    // The elements that stay lie on both sides of the wrap.
    let mut rb = filled(4, &[1, 2, 3, 4, 5]);
    assert_eq!(rb.head(), 1);
    rb.shrink(3);
    assert_eq!(rb.head(), 0);
    assert_eq!((*rb).to_vec(), vec![3, 4, 5]);

    // Nothing is dropped.
    let mut rb = filled(4, &[1, 2, 3, 4, 5]);
    rb.shrink(4);
    assert_eq!(rb.head(), 0);
    assert_eq!((*rb).to_vec(), vec![2, 3, 4, 5]);
}

#[test]
fn shrink_to_nothing() {
    let mut rb = filled(4, &[1, 2, 3]);
    rb.shrink(0);
    assert_eq!(rb.len(), 0);
    assert_eq!(rb.head(), 0);
    assert_eq!(rb.to_vec(), Vec::<i32>::new());
}

#[test]
fn grow_puts_the_new_slots_at_the_cursor() {
    let mut rb = filled(4, &[1, 2, 3, 4, 5, 6]);
    rb.grow(6);
    assert_eq!(rb.len(), 6);
    assert_eq!(rb.head(), 4);
    assert_eq!((*rb).to_vec(), vec![3, 4, 5, 6, 0, 0]);
    assert_eq!(rb.to_vec(), vec![0, 0, 3, 4, 5, 6]);

    // The new slots are the next to be overwritten.
    rb.enqueue(7);
    assert_eq!(rb.to_vec(), vec![0, 3, 4, 5, 6, 7]);
    rb.enqueue(8);
    assert_eq!(rb.to_vec(), vec![3, 4, 5, 6, 7, 8]);
    rb.enqueue(9);
    assert_eq!(rb.to_vec(), vec![4, 5, 6, 7, 8, 9]);
}

#[test]
fn grow_to_the_same_size() {
    let mut rb = filled(4, &[1, 2, 3, 4, 5, 6]);
    rb.grow(4);
    assert_eq!(rb.len(), 4);
    assert_eq!(rb.head(), 0);
    assert_eq!((*rb).to_vec(), vec![3, 4, 5, 6]);
    assert_eq!(rb.to_vec(), vec![3, 4, 5, 6]);
    rb.enqueue(7);
    assert_eq!(rb.to_vec(), vec![4, 5, 6, 7]);
}

#[test]
fn grow_from_nothing() {
    let mut rb = RingBuffer::<i32>::new(0);
    rb.grow(3);
    assert_eq!(rb.head(), 0);
    assert_eq!(rb.to_vec(), vec![0, 0, 0]);
    rb.enqueue(1);
    assert_eq!(rb.to_vec(), vec![0, 0, 1]);
}

#[test]
fn resize_to_the_same_size_changes_nothing() {
    let mut rb = filled(4, &[1, 2, 3, 4, 5, 6]);
    let before = rb.clone();
    rb.resize(4);
    assert_eq!(rb, before);
    assert_eq!(rb.head(), 2);
    assert_eq!((*rb).to_vec(), vec![5, 6, 3, 4]);
}

#[test]
fn resize_keeps_the_order_of_the_most_recent() {
    let values = [1, 2, 3, 4, 5, 6, 7, 8, 9, 10, 11];
    for old_size in 1..6usize {
        for new_size in 0..8usize {
            for count in 0..values.len() {
                let mut rb = filled(old_size, &values[..count]);
                let before = rb.to_vec();
                rb.resize(new_size);
                let after = rb.to_vec();
                assert_eq!(after.len(), new_size);
                let kept = old_size.min(new_size);
                assert_eq!(after[new_size - kept..], before[old_size - kept..]);
                let enqueued = kept.min(count);
                assert_eq!(after[new_size - enqueued..], values[count - enqueued..count]);
            }
        }
    }
}

#[test]
fn shrink_then_grow() {
    let mut rb = filled(5, &[1, 2, 3, 4, 5, 6, 7]);
    assert_eq!(rb.to_vec(), vec![3, 4, 5, 6, 7]);
    rb.shrink(3);
    rb.grow(5);
    assert_eq!(rb.to_vec(), vec![0, 0, 5, 6, 7]);

    for kept in 0..5usize {
        for added in 0..4usize {
            let mut rb = filled(5, &[1, 2, 3, 4, 5, 6, 7]);
            let before = rb.to_vec();
            rb.shrink(kept);
            rb.grow(kept + added);
            let mut expected = vec![0; added];
            expected.extend_from_slice(&before[5 - kept..]);
            assert_eq!(rb.to_vec(), expected);
        }
    }
}

#[test]
fn index_follows_the_view() {
    let rb = filled(4, &[1, 2, 3, 4, 5, 6]);
    let view = rb.to_vec();
    for i in 0..4 {
        assert_eq!(rb[i], view[i]);
    }
    assert_eq!(rb[0], 3);
    assert_eq!(rb[3], 6);
}

#[test]
fn index_mut_writes_through() {
    let mut rb = filled(4, &[1, 2, 3, 4, 5, 6]);
    *rb.index_mut(0) = 30;
    *rb.index_mut(3) = 60;
    assert_eq!(rb.to_vec(), vec![30, 4, 5, 60]);
    assert_eq!((*rb).to_vec(), vec![5, 60, 30, 4]);
    assert_eq!(rb.head(), 2);
}

#[test]
fn slot_mut_writes_in_storage_order() {
    let mut rb = filled(4, &[1, 2, 3, 4, 5, 6]);
    *rb.slot_mut(0) = 50;
    assert_eq!((*rb).to_vec(), vec![50, 6, 3, 4]);
    assert_eq!(rb.to_vec(), vec![3, 4, 50, 6]);
}

#[test]
fn clone_is_equal_and_independent() {
    let rb = filled(4, &[1, 2, 3, 4, 5]);
    let mut copy = rb.clone();
    assert_eq!(copy, rb);
    assert_eq!(copy.head(), rb.head());
    copy.enqueue(6);
    assert_ne!(copy, rb);
    assert_eq!(rb.to_vec(), vec![2, 3, 4, 5]);
    assert_eq!(copy.to_vec(), vec![3, 4, 5, 6]);
}

#[test]
fn iteration_from_the_back() {
    let rb = filled(4, &[1, 2, 3, 4, 5, 6]);

    let mut iter = rb.iter();
    assert_eq!(iter.next_back(), Some(&6));
    assert_eq!(iter.next_back(), Some(&5));
    assert_eq!(iter.next_back(), Some(&4));
    assert_eq!(iter.next_back(), Some(&3));
    assert_eq!(iter.next_back(), None);
    assert_eq!(iter.next_back(), None);

    let mut iter = rb.into_iter();
    assert_eq!(iter.next_back(), Some(6));
    assert_eq!(iter.next_back(), Some(5));
    assert_eq!(iter.next_back(), Some(4));
    assert_eq!(iter.next_back(), Some(3));
    assert_eq!(iter.next_back(), None);
}

#[test]
fn iteration_ends_are_independent() {
    let rb = filled(3, &[1, 2, 3]);
    let mut iter = rb.iter();
    assert_eq!(iter.next(), Some(&1));
    assert_eq!(iter.next_back(), Some(&3));
    assert_eq!(iter.next(), Some(&2));
    assert_eq!(iter.next_back(), Some(&2));
    assert_eq!(iter.next(), Some(&3));
    assert_eq!(iter.next_back(), Some(&1));
    assert_eq!(iter.next(), None);
    assert_eq!(iter.next_back(), None);
}

#[test]
fn iteration_over_nothing() {
    let rb = RingBuffer::<i32>::new(0);
    let mut iter = rb.iter();
    assert_eq!(iter.next(), None);
    assert_eq!(iter.next_back(), None);
    let mut iter = rb.into_iter();
    assert_eq!(iter.next(), None);
    assert_eq!(iter.next_back(), None);
}
