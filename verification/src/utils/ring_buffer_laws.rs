//! What holds of a [`RingBuffer`] across several operations.

use crate::utils::ring_buffer::{is_default, RingBuffer};
use vstd::prelude::*;

verus! {

/// The last `count` entries of `elements`.
pub open spec fn most_recent<T>(elements: Seq<T>, count: int) -> Seq<T> {
    elements.subrange(elements.len() - count, elements.len() as int)
}

/// The smaller of two numbers.
pub open spec fn smaller(a: int, b: int) -> int {
    if a < b {
        a
    } else {
        b
    }
}

/// The element at position `index` of the view is the slot `index` places
/// behind the cursor, counted around the end of the storage.
pub proof fn lemma_view_wraps_around<T>(buffer: RingBuffer<T>, index: int)
    requires
        buffer.well_formed(),
        0 <= index < buffer@.len(),
    ensures
        buffer@.len() == buffer.storage().len(),
        buffer@[index] == buffer.storage()[(buffer.cursor() + index) % (
        buffer.storage().len() as int)],
{
    let size = buffer.storage().len() as int;
    let cursor = buffer.cursor() as int;
    if cursor + index < size {
        vstd::arithmetic::div_mod::lemma_small_mod((cursor + index) as nat, size as nat);
    } else {
        vstd::arithmetic::div_mod::lemma_mod_sub_multiples_vanish(cursor + index, size);
        vstd::arithmetic::div_mod::lemma_small_mod((cursor + index - size) as nat, size as nat);
    }
}

/// `states` is a run of buffers in which each comes from the one before by
/// enqueueing the next of `values`.
pub open spec fn is_enqueue_run<T>(states: Seq<RingBuffer<T>>, values: Seq<T>) -> bool {
    &&& states.len() == values.len() + 1
    &&& forall|i: int|
        0 <= i < values.len() ==> RingBuffer::enqueues(
            #[trigger] states[i],
            states[i + 1],
            values[i],
        )
}

/// Enqueueing drops the oldest element and puts the value behind the newest,
/// which leaves the most recent of what the buffer held followed by the
/// value: as many as it has slots.
pub proof fn lemma_enqueue_shifts<T>(before: RingBuffer<T>, after: RingBuffer<T>, value: T)
    requires
        before.well_formed(),
        RingBuffer::enqueues(before, after, value),
    ensures
        after.well_formed(),
        after@ == most_recent(before@.push(value), before@.len() as int),
        before@.len() > 0 ==> after@ == before@.drop_first().push(value),
{
    let size = before.storage().len() as int;
    let cursor = before.cursor() as int;
    if size == 0 {
        assert(after@ =~= most_recent(before@.push(value), 0));
    } else {
        if cursor + 1 == size {
            vstd::arithmetic::div_mod::lemma_mod_self_0(size);
        } else {
            vstd::arithmetic::div_mod::lemma_small_mod((cursor + 1) as nat, size as nat);
        }
        assert(after@ =~= before@.drop_first().push(value));
        assert(after@ =~= most_recent(before@.push(value), size));
    }
}

/// After a run of enqueues, a buffer holds the most recent of what it held
/// at first followed by the values enqueued: as many as it has slots.
pub proof fn lemma_enqueue_run<T>(states: Seq<RingBuffer<T>>, values: Seq<T>)
    requires
        is_enqueue_run(states, values),
        states[0].well_formed(),
    ensures
        states.last().well_formed(),
        states.last()@.len() == states[0]@.len(),
        states.last()@ == most_recent(states[0]@ + values, states[0]@.len() as int),
    decreases values.len(),
{
    let size = states[0]@.len() as int;
    if values.len() == 0 {
        assert(states[0]@ + values =~= states[0]@);
        assert(most_recent(states[0]@, size) =~= states[0]@);
    } else {
        let earlier_states = states.drop_last();
        let earlier_values = values.drop_last();
        assert forall|i: int| 0 <= i < earlier_values.len() implies RingBuffer::enqueues(
            #[trigger] earlier_states[i],
            earlier_states[i + 1],
            earlier_values[i],
        ) by {
            assert(RingBuffer::enqueues(states[i], states[i + 1], values[i]));
        }
        lemma_enqueue_run(earlier_states, earlier_values);
        let before = earlier_states.last();
        let last = values.len() - 1;
        assert(before == states[last]);
        assert(RingBuffer::enqueues(states[last], states[last + 1], values[last]));
        lemma_enqueue_shifts(before, states.last(), values.last());
        assert(states.last()@ =~= most_recent(states[0]@ + values, size)) by {
            let all = states[0]@ + values;
            let all_earlier = states[0]@ + earlier_values;
            assert forall|j: int| 0 <= j < size implies states.last()@[j] == most_recent(
                all,
                size,
            )[j] by {
                if j < size - 1 {
                    assert(states.last()@[j] == before@.push(values.last())[j + 1]);
                    assert(before@[j + 1] == all_earlier[all_earlier.len() - size + j + 1]);
                }
            }
        }
    }
}

/// Resizing keeps the most recent elements in their order: as many of them
/// as fit into both the old and the new size.
///
/// So after a run of enqueues and a resize, the values enqueued last are
/// still the newest elements, in the order in which they came.
pub proof fn lemma_resize_keeps_order<T: Default>(
    states: Seq<RingBuffer<T>>,
    values: Seq<T>,
    resized: RingBuffer<T>,
    size: nat,
)
    requires
        is_enqueue_run(states, values),
        states[0].well_formed(),
        RingBuffer::resizes_to(states.last(), resized, size),
    ensures
        ({
            let kept = smaller(states.last()@.len() as int, size as int);
            let enqueued = smaller(kept, values.len() as int);
            &&& resized@.len() == size
            &&& most_recent(resized@, kept) == most_recent(states.last()@, kept)
            &&& most_recent(resized@, enqueued) == most_recent(values, enqueued)
        }),
{
    lemma_enqueue_run(states, values);
    let filled = states.last();
    lemma_resize_keeps_recent(filled, resized, size);
    let kept = smaller(filled@.len() as int, size as int);
    let enqueued = smaller(kept, values.len() as int);
    assert(most_recent(resized@, enqueued) =~= most_recent(values, enqueued)) by {
        let all = states[0]@ + values;
        assert forall|j: int| 0 <= j < enqueued implies most_recent(resized@, enqueued)[j]
            == most_recent(values, enqueued)[j] by {
            assert(most_recent(resized@, enqueued)[j] == most_recent(resized@, kept)[kept
                - enqueued + j]);
            assert(most_recent(filled@, kept)[kept - enqueued + j] == filled@[filled@.len()
                - enqueued + j]);
            assert(filled@[filled@.len() - enqueued + j] == all[all.len() - enqueued + j]);
        }
    }
}

/// A resized buffer has the new size and ends with the most recent elements
/// of the buffer that it came from.
pub proof fn lemma_resize_keeps_recent<T: Default>(
    before: RingBuffer<T>,
    after: RingBuffer<T>,
    size: nat,
)
    requires
        before.well_formed(),
        RingBuffer::resizes_to(before, after, size),
    ensures
        after@.len() == size,
        most_recent(after@, smaller(before@.len() as int, size as int)) == most_recent(
            before@,
            smaller(before@.len() as int, size as int),
        ),
{
    let kept = smaller(before@.len() as int, size as int);
    if size < before@.len() {
        assert(after@ =~= after.storage());
        assert(most_recent(after@, kept) =~= most_recent(before@, kept));
    } else if size > before@.len() {
        lemma_grow_puts_new_slots_first(before, after, size);
        assert(most_recent(before@, kept) =~= before@);
    }
}

/// In the view of a grown buffer the new slots, which hold default values,
/// come first, and the elements that were there follow in their order.
pub proof fn lemma_grow_puts_new_slots_first<T: Default>(
    before: RingBuffer<T>,
    after: RingBuffer<T>,
    size: nat,
)
    requires
        before.well_formed(),
        before@.len() <= size,
        RingBuffer::grows_to(before, after, size),
    ensures
        after@.len() == size,
        most_recent(after@, before@.len() as int) == before@,
        forall|i: int| 0 <= i < size - before@.len() ==> is_default(#[trigger] after@[i]),
{
    let old_size = before@.len() as int;
    assert(most_recent(after@, old_size) =~= before@) by {
        assert forall|j: int| 0 <= j < old_size implies most_recent(after@, old_size)[j]
            == before@[j] by {
            assert(after.storage().subrange(0, old_size)[j] == before@[j]);
        }
    }
}

/// Shrinking a buffer to `kept` slots and growing it right away by `added`
/// slots gives a buffer of `kept + added` slots whose view starts with
/// `added` default values and ends with the `kept` most recent elements of
/// the buffer at first, in their order.
pub proof fn lemma_shrink_then_grow<T: Default>(
    initial: RingBuffer<T>,
    shrunk: RingBuffer<T>,
    grown: RingBuffer<T>,
    kept: nat,
    added: nat,
)
    requires
        initial.well_formed(),
        kept <= initial@.len(),
        RingBuffer::shrinks_to(initial, shrunk, kept),
        RingBuffer::grows_to(shrunk, grown, kept + added),
    ensures
        grown@.len() == kept + added,
        forall|i: int| 0 <= i < added ==> is_default(#[trigger] grown@[i]),
        grown@.subrange(added as int, (kept + added) as int) == most_recent(
            initial@,
            kept as int,
        ),
{
    assert(shrunk@ =~= shrunk.storage());
    lemma_grow_puts_new_slots_first(shrunk, grown, kept + added);
}

} // verus!
