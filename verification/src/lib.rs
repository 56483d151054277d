//! A vector-like data structure that organizes its elements into a set of
//! buckets of fixed capacity, so that pushing to it never moves the elements
//! that it already holds.
//!
//! The `BucketVec` is a vector of `Bucket` instances. An element is pushed
//! onto the last bucket if that is not filled yet. Otherwise a new bucket is
//! pushed, with a capacity that the configuration of the bucket vector
//! determines.
//!
//! With a starting capacity of 1 and a growth rate of 2, pushing `A` to `K`
//! gives
//!
//! ```no_compile
//! [ [A], [B, C], [D, E, F, G], [H, I, J, K, _, _, _, _] ]
//! ```
//!
//! where `_` is a vacant entry.

pub mod bucket;
pub mod codec;
pub mod compare;
pub mod config;
pub mod cursor;
pub mod iter;
pub mod layout;
pub mod math;
pub mod shape;
pub mod traversal;

use crate::bucket::Bucket;
use crate::config::{
    bucket_capacity, is_representable, lemma_bucket_count, lemma_default_config,
    lemma_entry_indices_found, lemma_supports_below,
    lemma_supports_nothing, lemma_total_capacity_step, spec_bucket_capacity, spec_bucket_count,
    spec_bucket_entry_indices, spec_representable, spec_supports, spec_total_capacity,
    valid_config,
};
pub use crate::config::{BucketVecConfig, DefaultConfig};
pub use crate::iter::{IntoIter, Iter, IterMut};
use crate::layout::{
    concat, lemma_concat_cloned, lemma_concat_index, lemma_offset_step, offset, views,
};
use crate::shape::{
    kept_in_place, lemma_can_grow, lemma_no_buckets, lemma_no_buckets_no_elements, lemma_pushed, lemma_pushed_replaced,
    lemma_shaped_locate, lemma_shaped_offsets, lemma_shaped_push_bucket,
    lemma_shaped_push_entry, lemma_shaped_update_all, pushed, shaped,
};
use core::marker::PhantomData;
use vstd::prelude::*;
use vstd::std_specs::iter::IteratorSpec;

verus! {

/// A vector-like data structure that never moves its contained elements.
///
/// With `N` the starting capacity and `a` the growth rate of the
/// configuration `C`, the buckets before bucket `i` have a total capacity of
/// `floor(N * (1 + a + ... + a^(i-1)))`, and the capacity of bucket `i` is
/// what this total grows by from `i` to `i + 1`.
#[derive(Debug)]
pub struct BucketVec<T, C = DefaultConfig> {
    /// The number of elements stored in the bucket vector.
    len: usize,
    /// The buckets.
    buckets: Vec<Bucket<T>>,
    /// The config phantom data.
    config: PhantomData<C>,
}

/// Accessor into a recently pushed element.
pub struct Access<'a, T> {
    /// Access by index.
    pub index: usize,
    /// Access by exclusive reference.
    pub reference: &'a mut T,
}

impl<'a, T> Access<'a, T> {
    /// Creates a new accessor to the given index and reference.
    pub(crate) fn new(index: usize, reference: &'a mut T) -> (access: Self)
        ensures
            access.index == index,
            *access.reference == *old(reference),
            *final(access.reference) == *final(reference),
    {
        Self { index, reference }
    }

    /// Returns the index of the recently pushed element.
    pub fn index(&self) -> (index: usize)
        ensures
            index == self.index,
    {
        self.index
    }

    /// Returns a shared reference to the recently pushed element.
    ///
    /// The element stays as it is.
    pub fn into_ref(self) -> (element: &'a T)
        ensures
            *element == *old(self.reference),
            *final(self.reference) == *old(self.reference),
    {
        self.reference
    }

    /// Returns an exclusive reference to the recently pushed element.
    pub fn into_mut(self) -> (element: &'a mut T)
        ensures
            *element == *old(self.reference),
            *final(element) == *final(self.reference),
    {
        self.reference
    }
}

impl<T, C> View for BucketVec<T, C> {
    type V = Seq<T>;

    /// The elements of the bucket vector, in the order in which they were
    /// pushed.
    closed spec fn view(&self) -> Seq<T> {
        concat(views(self.buckets@))
    }
}

impl<T, C> BucketVec<T, C> {
    /// The buckets, whose entries one after the other are the elements.
    pub(crate) fn buckets(&self) -> (buckets: &Vec<Bucket<T>>)
        ensures
            concat(views(buckets@)) == self@,
    {
        &self.buckets
    }

    /// The number of elements that the bucket vector says it holds.
    pub(crate) fn stored_len(&self) -> (len: usize)
        ensures
            len == self.spec_stored_len(),
    {
        self.len
    }

    /// The count of elements that the bucket vector keeps. Where the bucket
    /// vector is laid out as its configuration says, this is the number of
    /// its elements: see `lemma_len_fits`.
    pub closed spec fn spec_stored_len(&self) -> usize {
        self.len
    }
}

impl<T, C: BucketVecConfig> BucketVec<T, C> {
    /// The entries of each bucket of the bucket vector.
    pub closed spec fn bucket_views(&self) -> Seq<Seq<T>> {
        views(self.buckets@)
    }

    /// The bucket vector is laid out as its configuration says.
    pub closed spec fn wf(&self) -> bool {
        &&& valid_config::<C>()
        &&& shaped::<T, C>(self.buckets@)
        &&& self.len == concat(views(self.buckets@)).len()
        &&& spec_representable::<C>(self.buckets@.len())
    }

    /// Creates a new empty bucket vector.
    ///
    /// # Note
    ///
    /// This does not allocate any heap memory.
    pub fn new() -> (vec: Self)
        requires
            valid_config::<C>(),
        ensures
            vec.wf(),
            vec@ == Seq::<T>::empty(),
            vec.bucket_views() == Seq::<Seq<T>>::empty(),
    {
        let vec = Self { len: 0, buckets: Vec::new(), config: PhantomData };
        proof {
            lemma_no_buckets(vec.buckets@);
            lemma_supports_nothing::<C>();
        }
        vec
    }

    /// Returns the number of elements stored in the bucket vector.
    pub fn len(&self) -> (len: usize)
        requires
            self.wf(),
        ensures
            len == self@.len(),
    {
        self.len
    }

    /// Returns `true` if the bucket vector is empty.
    pub fn is_empty(&self) -> (empty: bool)
        requires
            self.wf(),
        ensures
            empty == (self@.len() == 0),
    {
        self.len() == 0
    }

    /// Returns an iterator that yields shared references to the elements of
    /// the bucket vector, in their order.
    pub fn iter(&self) -> (iter: Iter<'_, T>)
        requires
            self.wf(),
        ensures
            iter.elements() == self@,
    {
        Iter::new(self)
    }

    /// Returns an iterator that yields exclusive references to the elements
    /// of the bucket vector, in their order.
    ///
    /// The iterator holds the bucket vector until it is let go: the bucket
    /// vector is then what the iterator's `vec` has become.
    pub fn iter_mut(&mut self) -> (iter: IterMut<'_, T, C>)
        requires
            old(self).wf(),
        ensures
            iter.wf(),
            iter.position() == 0,
            iter.len == old(self)@.len(),
            iter.elements() == old(self)@,
            *iter.vec == *old(self),
            *final(iter.vec) == *final(self),
    {
        assert(self@.subrange(0, self@.len() as int) =~= self@);
        IterMut::new(self)
    }

    /// The buckets and the number of elements that they hold in all.
    pub(crate) fn parts(&self) -> (parts: (&Vec<Bucket<T>>, usize))
        requires
            self.wf(),
        ensures
            concat(views(parts.0@)) == self@,
            parts.1 == self@.len(),
    {
        (&self.buckets, self.len)
    }

    /// Gives up the bucket vector for its buckets and the number of elements
    /// that they hold in all.
    pub(crate) fn into_parts(self) -> (parts: (Vec<Bucket<T>>, usize))
        requires
            self.wf(),
        ensures
            concat(views(parts.0@)) == self@,
            parts.1 == self@.len(),
    {
        (self.buckets, self.len)
    }

    /// What it means that a bucket vector is laid out as its configuration
    /// says: the configuration is valid and supports the length; the
    /// elements are the entries of the buckets, one bucket after the other;
    /// there are as many buckets as the length takes; and all buckets but
    /// the last are filled to the capacity that the configuration gives
    /// them, while the last holds at least one entry and no more than its
    /// capacity.
    pub proof fn lemma_layout(&self)
        requires
            self.wf(),
        ensures
            valid_config::<C>(),
            spec_supports::<C>(self@.len()),
            self@ == concat(self.bucket_views()),
            self.bucket_views().len() == spec_bucket_count::<C>(self@.len()),
            forall|bucket: int|
                0 <= bucket < self.bucket_views().len() ==> 0 < (
                #[trigger] self.bucket_views()[bucket]).len() <= spec_bucket_capacity::<C>(
                    bucket as nat,
                ),
            forall|bucket: int|
                0 <= bucket < self.bucket_views().len() - 1 ==> (
                #[trigger] self.bucket_views()[bucket]).len() == spec_bucket_capacity::<C>(
                    bucket as nat,
                ),
    {
        let count = self.buckets@.len();
        assert forall|bucket: int| 0 <= bucket < self.bucket_views().len() implies 0 < (
        #[trigger] self.bucket_views()[bucket]).len() <= spec_bucket_capacity::<C>(bucket as nat)
            && (bucket < self.bucket_views().len() - 1 ==> self.bucket_views()[bucket].len()
            == spec_bucket_capacity::<C>(bucket as nat)) by {
            let b = self.buckets@[bucket];
        }
        lemma_bucket_count::<C>(self@.len(), count);
        if count == 0 {
            lemma_no_buckets(self.buckets@);
        } else {
            let last = self.buckets@[count - 1];
            lemma_shaped_offsets::<T, C>(self.buckets@, count - 1);
            lemma_total_capacity_step::<C>((count - 1) as nat);
        }
    }

    /// The length of a bucket vector fits a `usize`, and is the count of
    /// elements that the bucket vector keeps.
    pub proof fn lemma_len_fits(&self)
        requires
            self.wf(),
        ensures
            self@.len() <= usize::MAX,
            self.spec_stored_len() == self@.len(),
    {
    }

    /// The element with index `index` is the entry of the bucket vector that
    /// the configuration's arithmetic locates for that index.
    pub proof fn lemma_element_slot(&self, index: nat)
        requires
            self.wf(),
            index < self@.len(),
        ensures
            ({
                let (bucket, entry) = spec_bucket_entry_indices::<C>(index);
                &&& 0 <= bucket < self.bucket_views().len()
                &&& 0 <= entry < self.bucket_views()[bucket].len()
                &&& self@[index as int] == self.bucket_views()[bucket][entry]
            }),
    {
        lemma_shaped_locate::<T, C>(self.buckets@, index as nat);
    }

    /// Reference stability: if every entry of `self` is found in `later` in
    /// the same bucket, at the same place, as it is after any number of
    /// pushes, then each element of `self` is in `later` the element with
    /// the same index, held in the same bucket at the same place.
    pub proof fn lemma_elements_stay(&self, later: &Self, index: nat)
        requires
            self.wf(),
            later.wf(),
            kept_in_place(self.bucket_views(), later.bucket_views()),
            index < self@.len(),
        ensures
            index < later@.len(),
            later@[index as int] == self@[index as int],
            ({
                let (bucket, entry) = spec_bucket_entry_indices::<C>(index);
                &&& 0 <= bucket < self.bucket_views().len() <= later.bucket_views().len()
                &&& 0 <= entry < self.bucket_views()[bucket].len() <= later.bucket_views()[bucket].len()
                &&& later.bucket_views()[bucket][entry] == self.bucket_views()[bucket][entry]
            }),
    {
        let (bucket, entry) = spec_bucket_entry_indices::<C>(index);
        lemma_shaped_locate::<T, C>(self.buckets@, index as nat);
        assert(views(self.buckets@)[bucket] == self.buckets@[bucket]@);
        assert(later.bucket_views()[bucket][entry] == self.bucket_views()[bucket][entry]);
        assert(views(later.buckets@)[bucket] == later.buckets@[bucket]@);
        lemma_shaped_offsets::<T, C>(later.buckets@, bucket);
        lemma_concat_index(views(later.buckets@), bucket, entry);
        lemma_shaped_offsets::<T, C>(self.buckets@, bucket);
    }

    /// Returns the number of buckets.
    pub fn bucket_count(&self) -> (count: usize)
        ensures
            count == self.bucket_views().len(),
    {
        self.buckets.len()
    }

    /// Returns the number of entries of the given bucket, or `None` if
    /// there is no such bucket.
    pub fn bucket_len(&self, bucket: usize) -> (len: Option<usize>)
        ensures
            bucket >= self.bucket_views().len() ==> len is None,
            bucket < self.bucket_views().len() ==> len == Some(
                self.bucket_views()[bucket as int].len() as usize,
            ) && len.unwrap() == self.bucket_views()[bucket as int].len(),
    {
        if bucket < self.buckets.len() {
            Some(self.buckets[bucket].len())
        } else {
            None
        }
    }

    /// Returns the fixed capacity of the given bucket, or `None` if there
    /// is no such bucket.
    pub fn bucket_capacity(&self, bucket: usize) -> (capacity: Option<usize>)
        requires
            self.wf(),
        ensures
            bucket >= self.bucket_views().len() ==> capacity is None,
            bucket < self.bucket_views().len() ==> capacity == Some(
                spec_bucket_capacity::<C>(bucket as nat) as usize,
            ) && capacity.unwrap() == spec_bucket_capacity::<C>(bucket as nat),
    {
        if bucket < self.buckets.len() {
            let ghost held = self.buckets@[bucket as int];
            Some(self.buckets[bucket].capacity())
        } else {
            None
        }
    }

    /// Returns the number of entries of the given bucket.
    pub(crate) fn entries_in(&self, bucket: usize) -> (len: usize)
        requires
            bucket < self.bucket_views().len(),
        ensures
            len == self.bucket_views()[bucket as int].len(),
    {
        self.buckets[bucket].len()
    }

    /// Returns an exclusive reference to the given entry of the given bucket.
    ///
    /// Whatever is written through the reference replaces that entry; all
    /// other entries stay as they are.
    pub(crate) fn entry_mut(&mut self, bucket: usize, entry: usize) -> (element: &mut T)
        requires
            old(self).wf(),
            bucket < old(self).bucket_views().len(),
            entry < old(self).bucket_views()[bucket as int].len(),
        ensures
            final(self).wf(),
            *element == old(self).bucket_views()[bucket as int][entry as int],
            final(self).bucket_views() == old(self).bucket_views().update(
                bucket as int,
                old(self).bucket_views()[bucket as int].update(entry as int, *final(element)),
            ),
            final(self)@ == old(self)@.update(
                offset(old(self).bucket_views(), bucket as int) + entry,
                *final(element),
            ),
    {
        proof {
            lemma_shaped_update_all::<T, C>(self.buckets@, bucket as int, entry as int);
        }
        match self.buckets[bucket].get_mut(entry) {
            Some(element) => element,
            None => vstd::pervasive::unreached(),
        }
    }

    /// Returns a shared reference to the first element of the bucket vector.
    pub fn first(&self) -> (first: Option<&T>)
        requires
            self.wf(),
        ensures
            self@.len() == 0 ==> first is None,
            self@.len() > 0 ==> first == Some(&self@[0]),
    {
        if self.is_empty() {
            return None;
        }
        proof {
            if self.buckets@.len() == 0 {
                lemma_no_buckets(self.buckets@);
            }
            lemma_shaped_offsets::<T, C>(self.buckets@, 0);
            lemma_offset_step(views(self.buckets@), 0);
            lemma_concat_index(views(self.buckets@), 0, 0);
        }
        Some(&self.buckets[0][0])
    }

    /// Returns an exclusive reference to the first element of the bucket
    /// vector.
    ///
    /// Whatever is written through the reference replaces the first
    /// element; all other elements stay as they are.
    pub fn first_mut(&mut self) -> (first: Option<&mut T>)
        requires
            old(self).wf(),
        ensures
            final(self).wf(),
            old(self)@.len() == 0 ==> first is None && final(self)@ == old(self)@,
            old(self)@.len() > 0 ==> first is Some && *first.unwrap() == old(self)@[0]
                && final(self)@ == old(self)@.update(0, *final(first.unwrap())),
    {
        if self.is_empty() {
            return None;
        }
        proof {
            if self.buckets@.len() == 0 {
                lemma_no_buckets(self.buckets@);
            }
            lemma_shaped_offsets::<T, C>(self.buckets@, 0);
            lemma_offset_step(views(self.buckets@), 0);
            lemma_concat_index(views(self.buckets@), 0, 0);
            lemma_shaped_update_all::<T, C>(self.buckets@, 0, 0);
        }
        self.buckets[0].get_mut(0)
    }

    /// Returns a shared reference to the last element of the bucket vector.
    pub fn last(&self) -> (last: Option<&T>)
        requires
            self.wf(),
        ensures
            self@.len() == 0 ==> last is None,
            self@.len() > 0 ==> last == Some(&self@.last()),
    {
        if self.is_empty() {
            return None;
        }
        proof {
            if self.buckets@.len() == 0 {
                lemma_no_buckets(self.buckets@);
            }
        }
        let len_buckets = self.buckets.len();
        let len_entries = self.buckets[len_buckets - 1].len();
        proof {
            lemma_shaped_offsets::<T, C>(self.buckets@, len_buckets - 1);
            lemma_concat_index(views(self.buckets@), len_buckets - 1, len_entries - 1);
        }
        Some(&self.buckets[len_buckets - 1][len_entries - 1])
    }

    /// Returns an exclusive reference to the last element of the bucket
    /// vector.
    ///
    /// Whatever is written through the reference replaces the last element;
    /// all other elements stay as they are.
    pub fn last_mut(&mut self) -> (last: Option<&mut T>)
        requires
            old(self).wf(),
        ensures
            final(self).wf(),
            old(self)@.len() == 0 ==> last is None && final(self)@ == old(self)@,
            old(self)@.len() > 0 ==> last is Some && *last.unwrap() == old(self)@.last()
                && final(self)@ == old(self)@.update(
                old(self)@.len() - 1,
                *final(last.unwrap()),
            ),
    {
        if self.is_empty() {
            return None;
        }
        proof {
            if self.buckets@.len() == 0 {
                lemma_no_buckets(self.buckets@);
            }
        }
        let len_buckets = self.buckets.len();
        let len_entries = self.buckets[len_buckets - 1].len();
        proof {
            lemma_shaped_offsets::<T, C>(self.buckets@, len_buckets - 1);
            lemma_concat_index(views(self.buckets@), len_buckets - 1, len_entries - 1);
            lemma_shaped_update_all::<T, C>(self.buckets@, len_buckets - 1, len_entries - 1);
        }
        self.buckets[len_buckets - 1].get_mut(len_entries - 1)
    }

    /// Returns the bucket index and its internal entry index for the given
    /// bucket vector index into an element.
    ///
    /// Returns `None` if the index is out of bounds.
    fn bucket_entry_indices(&self, index: usize) -> (indices: Option<(usize, usize)>)
        requires
            self.wf(),
        ensures
            index >= self@.len() ==> indices is None,
            index < self@.len() ==> indices == Some(
                (
                    spec_bucket_entry_indices::<C>(index as nat).0 as usize,
                    spec_bucket_entry_indices::<C>(index as nat).1 as usize,
                ),
            ) && indices.unwrap().0 == spec_bucket_entry_indices::<C>(index as nat).0
                && indices.unwrap().1 == spec_bucket_entry_indices::<C>(index as nat).1,
    {
        if index >= self.len() {
            return None;
        }
        let ghost count = self.buckets@.len();
        proof {
            lemma_no_buckets_no_elements::<T>(self.buckets@);
            lemma_shaped_offsets::<T, C>(self.buckets@, count - 1);
            lemma_total_capacity_step::<C>((count - 1) as nat);
            lemma_total_capacity_step::<C>(0);
        }
        let mut bucket: usize = 0;
        let mut begin: usize = 0;
        loop
            invariant
                self.wf(),
                count == self.buckets@.len(),
                index < spec_total_capacity::<C>(count),
                bucket < count,
                begin == spec_total_capacity::<C>(bucket as nat),
                begin <= index,
            ensures
                bucket == spec_bucket_entry_indices::<C>(index as nat).0,
                begin <= index,
                index - begin == spec_bucket_entry_indices::<C>(index as nat).1,
            decreases count - bucket,
        {
            let capacity = self.buckets[bucket].capacity();
            proof {
                let held = self.buckets@[bucket as int];
                lemma_total_capacity_step::<C>(bucket as nat);
            }
            if index - begin < capacity {
                proof {
                    lemma_entry_indices_found::<C>(index as nat, bucket as nat);
                }
                break ;
            }
            begin = begin + capacity;
            bucket = bucket + 1;
        }
        Some((bucket, index - begin))
    }

    /// Returns an exclusive reference to the element at the given index if
    /// any.
    ///
    /// Whatever is written through the reference replaces the element at
    /// `index`; all other elements stay as they are.
    pub fn get_mut(&mut self, index: usize) -> (element: Option<&mut T>)
        requires
            old(self).wf(),
        ensures
            final(self).wf(),
            index >= old(self)@.len() ==> element is None && final(self)@ == old(self)@,
            index < old(self)@.len() ==> element is Some && *element.unwrap() == old(self)@[index as int]
                && final(self)@ == old(self)@.update(index as int, *final(element.unwrap())),
    {
        match self.bucket_entry_indices(index) {
            None => None,
            Some((x, y)) => {
                proof {
                    lemma_shaped_locate::<T, C>(self.buckets@, index as nat);
                    lemma_shaped_update_all::<T, C>(self.buckets@, x as int, y as int);
                }
                self.buckets[x].get_mut(y)
            },
        }
    }

    /// Pushes a new bucket containing the new value onto the bucket vector.
    fn push_bucket(&mut self, new_value: T)
        requires
            old(self).wf(),
            spec_supports::<C>(old(self)@.len() + 1),
            old(self).buckets@.len() > 0 ==> old(self).buckets@.last()@.len() == old(
                self,
            ).buckets@.last().spec_capacity(),
        ensures
            final(self).wf(),
            final(self)@ == old(self)@.push(new_value),
            final(self).bucket_views() == pushed::<T, C>(old(self).bucket_views(), new_value),
    {
        let len_buckets = self.buckets.len();
        proof {
            lemma_can_grow::<T, C>(self.buckets@);
        }
        let new_capacity = bucket_capacity::<C>(len_buckets);
        let mut new_bucket = Bucket::new(new_capacity);
        new_bucket.push(new_value);
        proof {
            assert(new_bucket@ =~= seq![new_value]);
            lemma_shaped_push_bucket::<T, C>(self.buckets@, new_bucket, new_value);
        }
        self.buckets.push(new_bucket);
        self.len += 1;
    }

    /// Pushes a new element onto the bucket vector: onto the last bucket if
    /// that has room, and onto a new bucket if not.
    ///
    /// The configuration must support one more element: see
    /// `spec_supports`.
    ///
    /// # Note
    ///
    /// This operation never moves other elements: every element that the
    /// bucket vector held stays in its bucket, at its place.
    pub fn push(&mut self, new_value: T)
        requires
            old(self).wf(),
            spec_supports::<C>(old(self)@.len() + 1),
        ensures
            final(self).wf(),
            final(self)@ == old(self)@.push(new_value),
            final(self).bucket_views() == pushed::<T, C>(old(self).bucket_views(), new_value),
            kept_in_place(old(self).bucket_views(), final(self).bucket_views()),
    {
        proof {
            lemma_pushed::<T, C>(self.bucket_views(), new_value);
        }
        let len_buckets = self.buckets.len();
        if len_buckets > 0 {
            let bucket = &self.buckets[len_buckets - 1];
            if bucket.len() < bucket.capacity() {
                proof {
                    lemma_can_grow::<T, C>(self.buckets@);
                }
                self.buckets[len_buckets - 1].push(new_value);
                self.len += 1;
                proof {
                    lemma_shaped_push_entry::<T, C>(old(self).buckets@, self.buckets@, new_value);
                }
                return ;
            }
        }
        self.push_bucket(new_value);
    }

    /// Pushes a new element onto the bucket vector if its configuration
    /// supports one more element, and hands the element back if not.
    pub fn try_push(&mut self, new_value: T) -> (outcome: Result<(), T>)
        requires
            old(self).wf(),
        ensures
            final(self).wf(),
            spec_supports::<C>(old(self)@.len() + 1) ==> outcome is Ok && final(self)@ == old(
                self,
            )@.push(new_value) && final(self).bucket_views() == pushed::<T, C>(
                old(self).bucket_views(),
                new_value,
            ),
            !spec_supports::<C>(old(self)@.len() + 1) ==> outcome == Err::<(), T>(new_value)
                && *final(self) == *old(self),
    {
        let len_buckets = self.buckets.len();
        proof {
            lemma_can_grow::<T, C>(self.buckets@);
        }
        let room = len_buckets > 0 && self.buckets[len_buckets - 1].len()
            < self.buckets[len_buckets - 1].capacity();
        if room || (len_buckets < usize::MAX && is_representable::<C>(len_buckets + 1)) {
            self.push(new_value);
            Ok(())
        } else {
            Err(new_value)
        }
    }

    /// Pushes the elements that the iterator yields onto the bucket vector,
    /// in the order in which it yields them.
    pub fn extend<I: Iterator<Item = T>>(&mut self, iter: I)
        requires
            old(self).wf(),
            iter.obeys_prophetic_iter_laws(),
            iter.decrease() is Some,
            spec_supports::<C>(old(self)@.len() + iter.remaining().len()),
        ensures
            final(self).wf(),
            final(self)@ == old(self)@ + iter.remaining(),
    {
        let mut iter = iter;
        let ghost all = iter.remaining();
        loop
            invariant
                self.wf(),
                iter.obeys_prophetic_iter_laws(),
                iter.decrease() is Some,
                spec_supports::<C>(old(self)@.len() + all.len()),
                self@ + iter.remaining() == old(self)@ + all,
            ensures
                self.wf(),
                self@ == old(self)@ + all,
            decreases iter.decrease()->0,
        {
            let ghost rest = iter.remaining();
            match iter.next() {
                Some(item) => {
                    proof {
                        assert((self@ + rest).len() == self@.len() + rest.len());
                        assert((old(self)@ + all).len() == old(self)@.len() + all.len());
                        lemma_supports_below::<C>(
                            self@.len() + 1,
                            old(self)@.len() + all.len(),
                        );
                        assert(self@.push(item) + rest.drop_first() =~= self@ + rest);
                    }
                    self.push(item);
                },
                None => {
                    proof {
                        assert(self@ + rest =~= self@);
                    }
                    break ;
                },
            }
        }
    }

    /// Creates a bucket vector of the elements that the iterator yields, in
    /// the order in which it yields them.
    pub fn from_iter<I: Iterator<Item = T>>(iter: I) -> (vec: Self)
        requires
            valid_config::<C>(),
            iter.obeys_prophetic_iter_laws(),
            iter.decrease() is Some,
            spec_supports::<C>(iter.remaining().len()),
        ensures
            vec.wf(),
            vec@ == iter.remaining(),
    {
        let mut vec = Self::new();
        vec.extend(iter);
        proof {
            assert(Seq::<T>::empty() + iter.remaining() =~= iter.remaining());
        }
        vec
    }

    /// Turns the bucket vector into an iterator that yields its elements by
    /// value, in their order.
    pub fn into_iter(self) -> (iter: IntoIter<T>)
        requires
            self.wf(),
        ensures
            iter.elements() == self@,
    {
        IntoIter::new(self)
    }

    /// Pushes a new element onto the bucket vector and returns access to it.
    ///
    /// The index of the access is the length that the bucket vector had
    /// before. Whatever is written through the access replaces the pushed
    /// element.
    ///
    /// # Note
    ///
    /// This operation never moves other elements: every element that the
    /// bucket vector held stays in its bucket, at its place.
    pub fn push_get(&mut self, new_value: T) -> (access: Access<'_, T>)
        requires
            old(self).wf(),
            spec_supports::<C>(old(self)@.len() + 1),
        ensures
            final(self).wf(),
            access.index == old(self)@.len(),
            *access.reference == new_value,
            final(self)@ == old(self)@.push(*final(access.reference)),
            final(self).bucket_views() == pushed::<T, C>(
                old(self).bucket_views(),
                *final(access.reference),
            ),
    {
        let index = self.len();
        self.push(new_value);
        proof {
            if self.buckets@.len() == 0 {
                lemma_no_buckets(self.buckets@);
            }
        }
        let len_buckets = self.buckets.len();
        let len_entries = self.buckets[len_buckets - 1].len();
        proof {
            lemma_shaped_offsets::<T, C>(self.buckets@, len_buckets - 1);
            lemma_concat_index(views(self.buckets@), len_buckets - 1, len_entries - 1);
            lemma_shaped_update_all::<T, C>(self.buckets@, len_buckets - 1, len_entries - 1);
            lemma_pushed_replaced::<T, C>(old(self).bucket_views(), new_value);
            assert(views(self.buckets@)[len_buckets - 1] == self.buckets@[len_buckets - 1]@);
            assert forall|value: T| #[trigger]
                old(self)@.push(new_value).update(index as int, value) == old(self)@.push(
                    value,
                ) by {
                assert(old(self)@.push(new_value).update(index as int, value) =~= old(self)@.push(
                    value,
                ));
            }
        }
        match self.buckets[len_buckets - 1].get_mut(len_entries - 1) {
            Some(reference) => Access::new(index, reference),
            None => vstd::pervasive::unreached(),
        }
    }

    /// Returns a shared reference to the element at the given index if any.
    pub fn get(&self, index: usize) -> (element: Option<&T>)
        requires
            self.wf(),
        ensures
            index >= self@.len() ==> element is None,
            index < self@.len() ==> element == Some(&self@[index as int]),
    {
        match self.bucket_entry_indices(index) {
            None => None,
            Some((x, y)) => {
                proof {
                    lemma_shaped_locate::<T, C>(self.buckets@, index as nat);
                }
                self.buckets[x].get(y)
            },
        }
    }
}

impl<T: Clone, C: BucketVecConfig> Clone for BucketVec<T, C> {
    /// Clones the elements one by one into a bucket vector of the same
    /// layout.
    fn clone(&self) -> (copy: Self)
        ensures
            copy@.len() == self@.len(),
            forall|i: int| 0 <= i < self@.len() ==> cloned::<T>(self@[i], #[trigger] copy@[i]),
            copy.bucket_views().len() == self.bucket_views().len(),
            forall|bucket: int|
                0 <= bucket < self.bucket_views().len() ==> (
                #[trigger] copy.bucket_views()[bucket]).len() == self.bucket_views()[bucket].len(),
            self.wf() ==> copy.wf(),
    {
        let buckets = self.buckets.clone();
        proof {
            let source = views(self.buckets@);
            let copy = views(buckets@);
            assert forall|i: int| 0 <= i < source.len() implies (#[trigger] source[i]).len()
                == copy[i].len() by {
                assert(cloned::<Bucket<T>>(self.buckets@[i], buckets@[i]));
            }
            assert forall|i: int, j: int|
                0 <= i < source.len() && 0 <= j < source[i].len() implies cloned::<T>(
                source[i][j],
                #[trigger] copy[i][j],
            ) by {
                assert(cloned::<Bucket<T>>(self.buckets@[i], buckets@[i]));
            }
            lemma_concat_cloned(source, copy);
            if self.wf() {
                assert forall|i: int| 0 <= i < buckets@.len() implies {
                    let b = #[trigger] buckets@[i];
                    &&& b.spec_capacity() == spec_bucket_capacity::<C>(i as nat)
                    &&& 0 < b@.len() <= b.spec_capacity()
                    &&& i < buckets@.len() - 1 ==> b@.len() == b.spec_capacity()
                } by {
                    let b = self.buckets@[i];
                    assert(cloned::<Bucket<T>>(self.buckets@[i], buckets@[i]));
                    assert(source[i].len() == copy[i].len());
                }
            }
        }
        Self { len: self.len, buckets, config: PhantomData }
    }
}

impl<T> Default for BucketVec<T, DefaultConfig> {
    /// Creates a new empty bucket vector of the default configuration.
    fn default() -> (vec: Self)
        ensures
            vec.wf(),
            vec@ == Seq::<T>::empty(),
    {
        proof {
            lemma_default_config();
        }
        Self::new()
    }
}

} // verus!
