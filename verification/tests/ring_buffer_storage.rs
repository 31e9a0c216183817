use cyma::utils::ring_buffer::RingBuffer;

#[test]
fn ring_buffer_basics() {
    let mut rb = RingBuffer::<i32>::new(4);

    // Is the buffer filled with zeroes?
    assert_eq!((*rb).to_vec(), vec![0; 4]);

    rb.enqueue(1);
    rb.enqueue(2);
    rb.enqueue(3);

    // Is the value at the tail (before the head) the one enqueued last?
    assert_eq!((*rb)[(rb.head() + rb.len() - 1) % rb.len()], 3);

    // Is the value at the head equal to 0?
    assert_eq!((*rb)[rb.head()], 0);

    rb.enqueue(4);
    rb.enqueue(5);
    rb.enqueue(6);

    // Have the earlier values been overwritten?
    assert!(!(*rb).contains(&1));
    assert!(!(*rb).contains(&2));

    // Do the last 4 values exist?
    assert!((*rb).contains(&3));
    assert!((*rb).contains(&4));
    assert!((*rb).contains(&5));
    assert!((*rb).contains(&6));
}

#[test]
fn ring_buffer_clear() {
    let mut rb = RingBuffer::<i32>::new(4);

    rb.enqueue(1);
    rb.enqueue(2);
    rb.enqueue(3);

    assert_ne!((*rb).to_vec(), vec![0; 4]);

    rb.clear();

    assert_eq!((*rb).to_vec(), vec![0; 4]);
}

#[test]
fn ring_buffer_resize() {
    let mut rb = RingBuffer::<i32>::new(4);
    rb.enqueue(1);
    rb.enqueue(2);
    rb.enqueue(3);
    rb.enqueue(4);
    rb.enqueue(5);
    rb.enqueue(6);

    // Growing RingBuffers
    {
        let mut rb_grown = rb.clone();
        rb_grown.grow(6);
        let mut rb_resized = rb.clone();
        rb_resized.resize(6);
        // Is the last inserted datum the same?
        assert_eq!(
            (*rb_grown)[(rb_grown.head() + rb_grown.len() - 1) % rb_grown.len()],
            (*rb_resized)[(rb_resized.head() + rb_resized.len() - 1) % rb_resized.len()]
        );
        // Is the buffer zero-padded?
        assert_eq!((*rb_grown)[rb_grown.head()], 0);
    }

    // Shrinking RingBuffers
    {
        let mut rb_shrunk = rb.clone();
        rb_shrunk.shrink(3);
        let mut rb_resized = rb.clone();
        rb_resized.resize(3);
        // Is the last inserted datum the same?
        assert_eq!(
            (*rb_shrunk)[(rb_shrunk.head() + rb_shrunk.len() - 1) % rb_shrunk.len()],
            (*rb_resized)[(rb_resized.head() + rb_resized.len() - 1) % rb_resized.len()]
        );
    }
}

#[test]
fn ring_buffer_indexing() {
    let mut rb = RingBuffer::<i32>::new(4);

    rb.enqueue(1);
    rb.enqueue(2);
    rb.enqueue(3);

    // Is the last value still equal to 0?
    assert_eq!(rb[0], 0);

    // Were the first bunch of values inserted correctly?
    assert_eq!(rb[1], 1);
    assert_eq!(rb[2], 2);
    assert_eq!(rb[3], 3);

    *rb.index_mut(1) *= 2;
    *rb.index_mut(2) *= 3;
    *rb.index_mut(3) *= 4;

    // Were the values multiplied correctly?
    assert_eq!(rb[1], 2);
    assert_eq!(rb[2], 6);
    assert_eq!(rb[3], 12);

    rb.enqueue(4);
    rb.enqueue(5);

    // Have the newer values "pushed back" the older ones?
    assert_eq!(rb[0], 6);
    assert_eq!(rb[1], 12);
    assert_eq!(rb[2], 4);
    assert_eq!(rb[3], 5);

    // Can we set an element of the buffer?
    *rb.index_mut(2) = 10;
    assert_eq!(rb[2], 10);
}

#[test]
#[should_panic]
fn ring_buffer_invalid_access() {
    let mut rb = RingBuffer::<i32>::new(4);

    rb.enqueue(1);
    rb.enqueue(2);
    rb.enqueue(3);

    rb[4];
}
