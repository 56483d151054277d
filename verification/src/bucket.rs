//! Fixed-capacity buckets: the chunks that a bucket vector is made of.

use vstd::prelude::*;

verus! {

/// A fixed capacity bucket within the bucket vector.
#[derive(Debug)]
pub struct Bucket<T> {
    /// The entries of this bucket.
    entries: Vec<T>,
    /// The number of entries that this bucket can hold.
    capacity: usize,
}

impl<T> View for Bucket<T> {
    type V = Seq<T>;

    /// The entries of the bucket, in the order in which they were pushed.
    closed spec fn view(&self) -> Seq<T> {
        self.entries@
    }
}

impl<T> Bucket<T> {
    /// The capacity that the bucket was created with.
    pub closed spec fn spec_capacity(&self) -> nat {
        self.capacity as nat
    }

    /// A bucket never holds more entries than its fixed capacity.
    pub open spec fn wf(&self) -> bool {
        self@.len() <= self.spec_capacity()
    }

    /// Creates a new empty bucket with a fixed capacity.
    pub fn new(capacity: usize) -> (bucket: Self)
        ensures
            bucket.wf(),
            bucket@ == Seq::<T>::empty(),
            bucket.spec_capacity() == capacity,
    {
        Self { entries: Vec::with_capacity(capacity), capacity }
    }

    /// Returns the current length of the bucket.
    pub fn len(&self) -> (len: usize)
        ensures
            len == self@.len(),
    {
        self.entries.len()
    }

    /// Returns the fixed capacity of the bucket.
    pub fn capacity(&self) -> (capacity: usize)
        ensures
            capacity == self.spec_capacity(),
    {
        self.capacity
    }

    /// Returns `true` if the bucket is empty.
    pub fn is_empty(&self) -> (empty: bool)
        ensures
            empty == (self@.len() == 0),
    {
        self.len() == 0
    }

    /// Returns a shared reference to the element at the given index, or
    /// `None` if the index is out of bounds.
    pub fn get(&self, index: usize) -> (entry: Option<&T>)
        ensures
            index < self@.len() ==> entry == Some(&self@[index as int]),
            index >= self@.len() ==> entry is None,
    {
        if index < self.entries.len() {
            Some(&self.entries[index])
        } else {
            None
        }
    }

    /// Returns an exclusive reference to the element at the given index, or
    /// `None` if the index is out of bounds.
    ///
    /// Whatever is written through the reference replaces the entry at
    /// `index`; the other entries and the capacity stay as they are.
    pub fn get_mut(&mut self, index: usize) -> (entry: Option<&mut T>)
        ensures
            index >= old(self)@.len() ==> entry is None && *final(self) == *old(self),
            index < old(self)@.len() ==> entry is Some && *entry.unwrap() == old(self)@[index as int]
                && final(self)@ == old(self)@.update(index as int, *final(entry.unwrap())),
            final(self).spec_capacity() == old(self).spec_capacity(),
    {
        if index < self.entries.len() {
            Some(&mut self.entries[index])
        } else {
            None
        }
    }

    /// Pushes a new value into the fixed capacity bucket.
    ///
    /// The bucket must not be filled to its capacity yet.
    pub fn push(&mut self, new_value: T)
        requires
            old(self)@.len() < old(self).spec_capacity(),
        ensures
            final(self)@ == old(self)@.push(new_value),
            final(self).spec_capacity() == old(self).spec_capacity(),
            final(self).wf(),
    {
        self.entries.push(new_value);
    }

    /// Returns an iterator over the entries of the bucket.
    pub fn iter(&self) -> (iter: core::slice::Iter<'_, T>)
        ensures
            vstd::std_specs::iter::IteratorSpec::remaining(&iter) == self@.as_ref(),
    {
        self.entries.iter()
    }

    /// Gives up the bucket for its entries.
    pub(crate) fn into_entries(self) -> (entries: Vec<T>)
        ensures
            entries@ == self@,
    {
        self.entries
    }
}

impl<T> core::ops::Index<usize> for Bucket<T> {
    type Output = T;

    /// Returns a shared reference to the entry at the given index, which
    /// must be in bounds.
    fn index(&self, index: usize) -> (entry: &T)
        ensures
            *entry == self@[index as int],
    {
        &self.entries[index]
    }
}

impl<T> vstd::std_specs::core::IndexSpecImpl<usize> for Bucket<T> {
    open spec fn index_req(&self, index: &usize) -> bool {
        *index < self@.len()
    }
}

impl<T: Clone> Clone for Bucket<T> {
    /// Clones the entries one by one into a bucket of the same capacity.
    fn clone(&self) -> (copy: Self)
        ensures
            copy.spec_capacity() == self.spec_capacity(),
            copy@.len() == self@.len(),
            forall|i: int| 0 <= i < self@.len() ==> cloned::<T>(self@[i], #[trigger] copy@[i]),
    {
        let mut entries: Vec<T> = Vec::with_capacity(self.capacity);
        let mut i: usize = 0;
        while i < self.entries.len()
            invariant
                i <= self.entries@.len(),
                entries@.len() == i,
                forall|j: int| 0 <= j < i ==> cloned::<T>(self.entries@[j], #[trigger] entries@[j]),
            decreases self.entries@.len() - i,
        {
            entries.push(self.entries[i].clone());
            i = i + 1;
        }
        Self { entries, capacity: self.capacity }
    }
}

} // verus!
