//! A fixed-size first-in-first-out buffer.

use vstd::prelude::*;

verus! {

/// Whether `value` is a value that `T::default()` may return.
pub open spec fn is_default<T: Default>(value: T) -> bool {
    call_ensures(T::default, (), value)
}

/// `slots` read from position `start` to the end, then from the beginning up
/// to `start`.
pub open spec fn rotated<T>(slots: Seq<T>, start: int) -> Seq<T> {
    slots.subrange(start, slots.len() as int) + slots.subrange(0, start)
}

/// A buffer that stores elements of type `T` in a first-in-first-out manner.
///
/// Enqueueing puts a new element at the tail and drops the oldest element
/// from the head. The buffer never reallocates or moves elements when one is
/// added: it overwrites the slot under a cursor and advances the cursor.
///
/// The view of a buffer is the sequence of its elements from the oldest to
/// the most recently enqueued one. The slots themselves are kept in storage
/// order, which differs from the view by a rotation.
#[derive(PartialEq, Eq, Hash, Debug)]
pub struct RingBuffer<T> {
    head: usize,
    data: Vec<T>,
}

impl<T> View for RingBuffer<T> {
    type V = Seq<T>;

    open spec fn view(&self) -> Seq<T> {
        rotated(self.storage(), self.cursor() as int)
    }
}

impl<T> RingBuffer<T> {
    /// The slots in storage order.
    pub closed spec fn storage(&self) -> Seq<T> {
        self.data@
    }

    /// The storage position of the oldest element, which is the slot that the
    /// next `enqueue` overwrites.
    pub closed spec fn cursor(&self) -> nat {
        self.head as nat
    }

    /// The cursor points at a slot, or the buffer has no slots at all.
    #[verifier::type_invariant]
    pub open spec fn well_formed(&self) -> bool {
        self.cursor() < self.storage().len() || (self.cursor() == 0 && self.storage().len() == 0)
    }

    /// `after` is `before` with `value` enqueued: the value stands in the
    /// slot that the cursor of `before` points at, and the cursor has moved
    /// on by one slot, wrapping around at the end of the storage. A buffer
    /// without slots has no room for the value and stays as it is.
    pub open spec fn enqueues(before: Self, after: Self, value: T) -> bool {
        if before.storage().len() == 0 {
            after == before
        } else {
            &&& after.storage() == before.storage().update(before.cursor() as int, value)
            &&& after.cursor() == (before.cursor() + 1) % before.storage().len()
        }
    }
}

impl<T: Default> RingBuffer<T> {
    /// `after` is `before` resized to `size` slots: shrunk, grown, or the
    /// same where it has that size already.
    pub open spec fn resizes_to(before: Self, after: Self, size: nat) -> bool {
        if size < before@.len() {
            Self::shrinks_to(before, after, size)
        } else if size > before@.len() {
            Self::grows_to(before, after, size)
        } else {
            after == before
        }
    }

    /// `after` is `before` shrunk to `size` slots: it holds the `size` most
    /// recent elements of `before`, laid out from the start of its storage.
    pub open spec fn shrinks_to(before: Self, after: Self, size: nat) -> bool {
        &&& after.cursor() == 0
        &&& after.storage() == before@.subrange(before@.len() - size, before@.len() as int)
    }

    /// `after` is `before` grown to `size` slots: its storage holds the
    /// elements of `before` from the oldest on, then new slots with default
    /// values. The cursor stands on the first new slot, or at the start where
    /// there is none.
    pub open spec fn grows_to(before: Self, after: Self, size: nat) -> bool {
        &&& after.storage().len() == size
        &&& after.storage().subrange(0, before@.len() as int) == before@
        &&& forall|i: int|
            before@.len() <= i < size ==> is_default(#[trigger] after.storage()[i])
        &&& after.cursor() == if size > before@.len() {
            before@.len()
        } else {
            0
        }
    }

    /// Every slot of `self` holds a default value.
    pub open spec fn is_cleared(&self) -> bool {
        forall|i: int| 0 <= i < self.storage().len() ==> is_default(#[trigger] self.storage()[i])
    }
}

impl<T: Default + Copy> RingBuffer<T> {
    /// Constructs a buffer of `size` slots, each holding the default value.
    pub fn new(size: usize) -> (buffer: Self)
        ensures
            buffer.storage().len() == size,
            buffer.cursor() == 0,
            forall|i: int| 0 <= i < size ==> is_default(#[trigger] buffer.storage()[i]),
            buffer@ == buffer.storage(),
    {
        let fill = T::default();
        let mut data: Vec<T> = Vec::new();
        let mut i: usize = 0;
        while i < size
            invariant
                i <= size,
                data@.len() == i,
                is_default(fill),
                forall|j: int| 0 <= j < i ==> data@[j] == fill,
            decreases size - i,
        {
            data.push(fill);
            i += 1;
        }
        let buffer = RingBuffer { head: 0, data };
        assert(buffer@ =~= buffer.storage());
        buffer
    }

    /// Returns the cursor: the storage position of the oldest element.
    pub fn head(&self) -> (head: usize)
        ensures
            head == self.cursor(),
    {
        self.head
    }

    /// Returns the number of slots.
    pub fn len(&self) -> (len: usize)
        ensures
            len == self@.len(),
            len == self.storage().len(),
    {
        proof {
            use_type_invariant(self);
        }
        self.data.len()
    }

    /// Enqueues an element.
    ///
    /// The value takes the place of the oldest element and becomes the most
    /// recent one. A buffer without slots drops the value.
    pub fn enqueue(&mut self, value: T)
        ensures
            Self::enqueues(*old(self), *final(self), value),
            final(self)@ == if old(self)@.len() == 0 {
                old(self)@
            } else {
                old(self)@.drop_first().push(value)
            },
    {
        proof {
            use_type_invariant(&*self);
        }
        if self.data.len() == 0 {
            return;
        }
        let ghost before = *self;
        self.data[self.head] = value;
        proof {
            if self.head + 1 == self.data.len() {
                vstd::arithmetic::div_mod::lemma_mod_self_0(self.data.len() as int);
            } else {
                vstd::arithmetic::div_mod::lemma_small_mod(
                    (self.head + 1) as nat,
                    self.data.len() as nat,
                );
            }
        }
        self.head = if self.head + 1 == self.data.len() {
            0
        } else {
            self.head + 1
        };
        assert(self@ =~= before@.drop_first().push(value));
    }

    /// Returns the most recently enqueued element.
    pub fn peek(&self) -> (element: T)
        requires
            self@.len() > 0,
        ensures
            element == self@.last(),
    {
        proof {
            use_type_invariant(self);
        }
        if self.head == 0 {
            self.data[self.data.len() - 1]
        } else {
            self.data[self.head - 1]
        }
    }

    /// Clears the entire buffer, filling it with default values.
    ///
    /// Neither the number of slots nor the cursor changes.
    pub fn clear(&mut self)
        ensures
            final(self).storage().len() == old(self).storage().len(),
            final(self).cursor() == old(self).cursor(),
            final(self).is_cleared(),
            forall|i: int| 0 <= i < final(self)@.len() ==> is_default(#[trigger] final(self)@[i]),
    {
        proof {
            use_type_invariant(&*self);
        }
        let mut i: usize = 0;
        while i < self.data.len()
            invariant
                i <= self.data.len(),
                self.data@.len() == old(self).data@.len(),
                self.head == old(self).head,
                self.head < self.data@.len() || (self.head == 0 && self.data@.len() == 0),
                forall|j: int| 0 <= j < i ==> is_default(#[trigger] self.data@[j]),
            decreases self.data.len() - i,
        {
            self.data[i] = T::default();
            i += 1;
        }
    }

    /// Shrinks the buffer to `size` slots.
    ///
    /// The most recently enqueued elements are preserved, in their order.
    pub fn shrink(&mut self, size: usize)
        requires
            size <= old(self)@.len(),
        ensures
            Self::shrinks_to(*old(self), *final(self), size as nat),
            final(self)@ == old(self)@.subrange(old(self)@.len() - size, old(self)@.len() as int),
    {
        proof {
            use_type_invariant(&*self);
        }
        let mut data: Vec<T> = Vec::new();
        if size <= self.head {
            // The last `size` elements before the cursor.
            copy_slots(&mut data, &self.data, self.head - size, self.head);
        } else {
            // The last elements before the storage wraps around, then
            // everything before the cursor.
            let wrapped = size - self.head;
            copy_slots(&mut data, &self.data, self.data.len() - wrapped, self.data.len());
            copy_slots(&mut data, &self.data, 0, self.head);
        }
        let shrunk = RingBuffer { head: 0, data };
        assert(shrunk.storage() =~= self@.subrange(self@.len() - size, self@.len() as int));
        assert(shrunk@ =~= shrunk.storage());
        *self = shrunk;
    }

    /// Grows the buffer to `size` slots.
    ///
    /// The elements keep their order. The extra slots hold default values and
    /// are the next to be overwritten, so in the view they come first.
    pub fn grow(&mut self, size: usize)
        requires
            old(self)@.len() <= size,
        ensures
            Self::grows_to(*old(self), *final(self), size as nat),
            final(self)@.len() == size,
            final(self)@.subrange(size - old(self)@.len(), size as int) == old(self)@,
            forall|i: int|
                0 <= i < size - old(self)@.len() ==> is_default(#[trigger] final(self)@[i]),
    {
        proof {
            use_type_invariant(&*self);
        }
        let mut data: Vec<T> = Vec::new();
        // Everything after the cursor, then everything before it.
        copy_slots(&mut data, &self.data, self.head, self.data.len());
        copy_slots(&mut data, &self.data, 0, self.head);
        assert(data@ =~= self@);
        let mut i: usize = self.data.len();
        while i < size
            invariant
                self.data.len() <= i <= size,
                data@.len() == i,
                data@.subrange(0, self.data.len() as int) == self@,
                forall|j: int| self.data.len() <= j < i ==> is_default(#[trigger] data@[j]),
            decreases size - i,
        {
            let ghost filled = data@;
            let ghost kept = self.data.len() as int;
            data.push(T::default());
            assert(data@.subrange(0, kept) =~= filled.subrange(0, kept));
            i += 1;
        }
        let head = if self.data.len() < size { self.data.len() } else { 0 };
        let grown = RingBuffer { head, data };
        assert(grown@.subrange(size - self@.len(), size as int) =~= self@) by {
            assert forall|j: int| 0 <= j < self@.len() implies grown@.subrange(
                size - self@.len(),
                size as int,
            )[j] == self@[j] by {
                assert(grown.storage().subrange(0, self.data.len() as int)[j] == self@[j]);
            }
        }
        *self = grown;
    }

    /// Resizes the buffer to `size` slots.
    ///
    /// This shrinks or grows the buffer as needed and leaves one of the right
    /// size untouched. Either way the most recent elements stay, as many as
    /// both sizes allow, in their order.
    pub fn resize(&mut self, size: usize)
        ensures
            Self::resizes_to(*old(self), *final(self), size as nat),
            final(self)@.len() == size,
            ({
                let kept = if size < old(self)@.len() {
                    size as int
                } else {
                    old(self)@.len() as int
                };
                final(self)@.subrange(size - kept, size as int) == old(self)@.subrange(
                    old(self)@.len() - kept,
                    old(self)@.len() as int,
                )
            }),
    {
        proof {
            use_type_invariant(&*self);
        }
        if size < self.data.len() {
            self.shrink(size);
            assert(self@.subrange(0, size as int) =~= self@);
        } else if size > self.data.len() {
            let ghost before = self@;
            self.grow(size);
            assert(before.subrange(0, before.len() as int) =~= before);
        } else {
            assert(self@.subrange(0, size as int) =~= self@);
        }
    }
}

/// Appends the slots `from..to` of `source` to `target`.
fn copy_slots<T: Copy>(target: &mut Vec<T>, source: &Vec<T>, from: usize, to: usize)
    requires
        from <= to <= source@.len(),
    ensures
        final(target)@ == old(target)@ + source@.subrange(from as int, to as int),
{
    let mut i: usize = from;
    while i < to
        invariant
            from <= i <= to <= source@.len(),
            target@ == old(target)@ + source@.subrange(from as int, i as int),
        decreases to - i,
    {
        target.push(source[i]);
        assert(target@ =~= old(target)@ + source@.subrange(from as int, i + 1));
        i += 1;
    }
}

impl<T> vstd::std_specs::core::IndexSpecImpl<usize> for RingBuffer<T> {
    open spec fn index_req(&self, index: &usize) -> bool {
        *index < self@.len()
    }
}

impl<T> core::ops::Index<usize> for RingBuffer<T> {
    type Output = T;

    /// The element at `index`, counted from the oldest.
    fn index(&self, index: usize) -> (element: &T)
        ensures
            *element == self@[index as int],
    {
        proof {
            use_type_invariant(self);
        }
        if index >= self.data.len() {
            vstd::pervasive::unreached()
        }
        let ahead = self.data.len() - self.head;
        if index < ahead {
            &self.data[self.head + index]
        } else {
            &self.data[index - ahead]
        }
    }
}

impl<T> RingBuffer<T> {
    /// The element at `index`, counted from the oldest, for writing.
    pub fn index_mut(&mut self, index: usize) -> (element: &mut T)
        requires
            index < old(self)@.len(),
        ensures
            *element == old(self)@[index as int],
            final(self)@ == old(self)@.update(index as int, *final(element)),
            final(self).cursor() == old(self).cursor(),
    {
        proof {
            use_type_invariant(&*self);
        }
        if index >= self.data.len() {
            vstd::pervasive::unreached()
        }
        let ahead = self.data.len() - self.head;
        if index < ahead {
            &mut self.data[self.head + index]
        } else {
            &mut self.data[index - ahead]
        }
    }
}

impl<T: Copy> Clone for RingBuffer<T> {
    /// A buffer with the same storage and the same cursor.
    fn clone(&self) -> (copy: Self)
        ensures
            copy.storage() == self.storage(),
            copy.cursor() == self.cursor(),
            copy@ == self@,
    {
        proof {
            use_type_invariant(self);
        }
        let mut data: Vec<T> = Vec::new();
        copy_slots(&mut data, &self.data, 0, self.data.len());
        assert(data@ =~= self.data@);
        RingBuffer { head: self.head, data }
    }
}

impl<T> Default for RingBuffer<T> {
    /// A buffer without slots.
    fn default() -> (buffer: Self)
        ensures
            buffer.storage() == Seq::<T>::empty(),
            buffer.cursor() == 0,
            buffer@ == Seq::<T>::empty(),
    {
        let buffer = RingBuffer { head: 0, data: Vec::new() };
        assert(buffer@ =~= Seq::<T>::empty());
        buffer
    }
}

impl<T> core::ops::Deref for RingBuffer<T> {
    type Target = [T];

    /// The slots in storage order, which is not the order of the view.
    fn deref(&self) -> (slots: &[T])
        ensures
            slots@ == self.storage(),
    {
        self.data.as_slice()
    }
}

impl<T> RingBuffer<T> {
    /// The slot at `position` in storage order, for writing.
    pub fn slot_mut(&mut self, position: usize) -> (slot: &mut T)
        requires
            position < old(self).storage().len(),
        ensures
            *slot == old(self).storage()[position as int],
            final(self).storage() == old(self).storage().update(position as int, *final(slot)),
            final(self).cursor() == old(self).cursor(),
    {
        proof {
            use_type_invariant(&*self);
        }
        if position >= self.data.len() {
            vstd::pervasive::unreached()
        }
        &mut self.data[position]
    }

    /// Creates an iterator over references to the elements, oldest first.
    pub fn iter(&self) -> (iter: Iter<'_, T>)
        ensures
            iter.items() == self@,
            iter.front() == 0,
            iter.back() == self@.len(),
    {
        proof {
            use_type_invariant(self);
        }
        Iter { ring_buffer: self, index: 0, index_back: self.data.len() }
    }

    /// Creates an iterator that takes the buffer over and hands out its
    /// elements, oldest first.
    pub fn into_iter(self) -> (iter: IntoIter<T>)
        ensures
            iter.items() == self@,
            iter.front() == 0,
            iter.back() == self@.len(),
    {
        proof {
            use_type_invariant(&self);
        }
        let index_back = self.data.len();
        IntoIter { ring_buffer: self, index: 0, index_back }
    }
}

impl<T: Copy> RingBuffer<T> {
    /// Collects the elements, oldest first.
    pub fn to_vec(&self) -> (elements: Vec<T>)
        ensures
            elements@ == self@,
    {
        proof {
            use_type_invariant(self);
        }
        let mut elements: Vec<T> = Vec::new();
        copy_slots(&mut elements, &self.data, self.head, self.data.len());
        copy_slots(&mut elements, &self.data, 0, self.head);
        elements
    }
}

/// An iterator that owns a [`RingBuffer`] and hands out its elements.
///
/// It keeps a position at either end of the elements. The two ends advance
/// independently of each other: each stops only at the far side of the
/// buffer.
pub struct IntoIter<T> {
    ring_buffer: RingBuffer<T>,
    index: usize,
    index_back: usize,
}

impl<T> IntoIter<T> {
    /// The elements that the iterator walks over, oldest first.
    pub closed spec fn items(&self) -> Seq<T> {
        self.ring_buffer@
    }

    /// The position of the element that `next` hands out.
    pub closed spec fn front(&self) -> nat {
        self.index as nat
    }

    /// The position behind the element that `next_back` hands out.
    pub closed spec fn back(&self) -> nat {
        self.index_back as nat
    }

    #[verifier::type_invariant]
    closed spec fn well_formed(&self) -> bool {
        &&& self.ring_buffer.well_formed()
        &&& self.index <= self.ring_buffer@.len()
        &&& self.index_back <= self.ring_buffer@.len()
    }
}

impl<T: Copy> IntoIter<T> {
    /// Hands out the element at the front position and moves the position
    /// on, or returns `None` once the position is behind the newest element.
    pub fn next(&mut self) -> (item: Option<T>)
        ensures
            final(self).items() == old(self).items(),
            final(self).back() == old(self).back(),
            item == if old(self).front() < old(self).items().len() {
                Some(old(self).items()[old(self).front() as int])
            } else {
                None
            },
            final(self).front() == if old(self).front() < old(self).items().len() {
                old(self).front() + 1
            } else {
                old(self).front()
            },
    {
        proof {
            use_type_invariant(&*self);
            use_type_invariant(&self.ring_buffer);
        }
        if self.index >= self.ring_buffer.data.len() {
            return None;
        }
        let item = Some(self.ring_buffer[self.index]);
        self.index += 1;
        item
    }

    /// Moves the back position one element towards the oldest and hands that
    /// element out, or returns `None` once the position is at the oldest
    /// element.
    pub fn next_back(&mut self) -> (item: Option<T>)
        ensures
            final(self).items() == old(self).items(),
            final(self).front() == old(self).front(),
            item == if old(self).back() > 0 {
                Some(old(self).items()[old(self).back() - 1])
            } else {
                None
            },
            final(self).back() == if old(self).back() > 0 {
                (old(self).back() - 1) as nat
            } else {
                0
            },
    {
        proof {
            use_type_invariant(&*self);
            use_type_invariant(&self.ring_buffer);
        }
        if self.index_back == 0 {
            return None;
        }
        self.index_back -= 1;
        Some(self.ring_buffer[self.index_back])
    }
}

/// An iterator over references to the elements of a [`RingBuffer`].
///
/// It keeps a position at either end of the elements. The two ends advance
/// independently of each other: each stops only at the far side of the
/// buffer.
pub struct Iter<'a, T> {
    ring_buffer: &'a RingBuffer<T>,
    index: usize,
    index_back: usize,
}

impl<'a, T> Iter<'a, T> {
    /// The elements that the iterator walks over, oldest first.
    pub closed spec fn items(&self) -> Seq<T> {
        self.ring_buffer@
    }

    /// The position of the element that `next` hands out.
    pub closed spec fn front(&self) -> nat {
        self.index as nat
    }

    /// The position behind the element that `next_back` hands out.
    pub closed spec fn back(&self) -> nat {
        self.index_back as nat
    }

    #[verifier::type_invariant]
    closed spec fn well_formed(&self) -> bool {
        &&& self.ring_buffer.well_formed()
        &&& self.index <= self.ring_buffer@.len()
        &&& self.index_back <= self.ring_buffer@.len()
    }

    /// Hands out the element at the front position and moves the position
    /// on, or returns `None` once the position is behind the newest element.
    pub fn next(&mut self) -> (item: Option<&'a T>)
        ensures
            final(self).items() == old(self).items(),
            final(self).back() == old(self).back(),
            item == if old(self).front() < old(self).items().len() {
                Some(&old(self).items()[old(self).front() as int])
            } else {
                None
            },
            final(self).front() == if old(self).front() < old(self).items().len() {
                old(self).front() + 1
            } else {
                old(self).front()
            },
    {
        proof {
            use_type_invariant(&*self);
            use_type_invariant(self.ring_buffer);
        }
        if self.index >= self.ring_buffer.data.len() {
            return None;
        }
        let item = Some(&self.ring_buffer[self.index]);
        self.index += 1;
        item
    }

    /// Moves the back position one element towards the oldest and hands that
    /// element out, or returns `None` once the position is at the oldest
    /// element.
    pub fn next_back(&mut self) -> (item: Option<&'a T>)
        ensures
            final(self).items() == old(self).items(),
            final(self).front() == old(self).front(),
            item == if old(self).back() > 0 {
                Some(&old(self).items()[old(self).back() - 1])
            } else {
                None
            },
            final(self).back() == if old(self).back() > 0 {
                (old(self).back() - 1) as nat
            } else {
                0
            },
    {
        proof {
            use_type_invariant(&*self);
            use_type_invariant(self.ring_buffer);
        }
        if self.index_back == 0 {
            return None;
        }
        self.index_back -= 1;
        Some(&self.ring_buffer[self.index_back])
    }
}

} // verus!
