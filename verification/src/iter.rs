//! Iterators over the elements of a bucket vector.
//!
//! Each iterator walks the buckets from both ends and steps from entry to
//! entry inside a bucket, moving on to the next bucket only when it has
//! reached the end of one. `Iter` and `IntoIter` hold the buckets that they
//! have not opened yet, and what is left of the bucket opened at the front
//! and of the bucket opened at the back. `IterMut` holds the bucket vector
//! itself and a cursor for each end.
//!
//! A step from the front yields the first of the elements that are left, a
//! step from the back the last: see the module `traversal` for what follows
//! from that for any interleaving of the two.

use crate::bucket::Bucket;
use crate::config::BucketVecConfig;
use crate::cursor::{cursor_wf, lemma_entry_replaced, lemma_place_bounds, place, Cursor};
use crate::layout::{
    concat, lemma_concat_first, lemma_concat_index, lemma_concat_last, lemma_offset_step, views,
};
use crate::BucketVec;
use std::collections::VecDeque;
use vstd::prelude::*;
use vstd::std_specs::iter::DoubleEndedIteratorSpecImpl;
use vstd::std_specs::iter::IteratorSpecImpl;

verus! {

/// What is left of the entries of one bucket: those from `start` up to,
/// and not including, `end`.
#[derive(Debug)]
pub struct Entries<'a, T> {
    /// The bucket.
    bucket: &'a Bucket<T>,
    /// Index of the first entry that is left.
    start: usize,
    /// Index after the last entry that is left.
    end: usize,
}

impl<'a, T> Clone for Entries<'a, T> {
    fn clone(&self) -> (copy: Self)
        ensures
            copy == *self,
    {
        *self
    }
}

impl<'a, T> Copy for Entries<'a, T> {

}

impl<'a, T> Entries<'a, T> {
    /// The cursor lies inside the bucket.
    pub closed spec fn wf(self) -> bool {
        self.start <= self.end <= self.bucket@.len()
    }

    /// The entries that are left.
    pub closed spec fn remaining(self) -> Seq<T> {
        self.bucket@.subrange(self.start as int, self.end as int)
    }

    /// All entries of the given bucket.
    pub fn new(bucket: &'a Bucket<T>) -> (entries: Self)
        ensures
            entries.wf(),
            entries.remaining() == bucket@,
    {
        let entries = Entries { bucket, start: 0, end: bucket.len() };
        assert(bucket@.subrange(0, bucket@.len() as int) =~= bucket@);
        entries
    }

    /// Splits off the first entry that is left, if any.
    pub fn split_first(self) -> (split: Option<(&'a T, Self)>)
        requires
            self.wf(),
        ensures
            self.remaining().len() == 0 ==> split is None,
            self.remaining().len() > 0 ==> split is Some && split.unwrap().1.wf()
                && *split.unwrap().0 == self.remaining().first() && split.unwrap().1.remaining()
                == self.remaining().drop_first(),
    {
        if self.start < self.end {
            let rest = Entries { bucket: self.bucket, start: self.start + 1, end: self.end };
            assert(rest.remaining() =~= self.remaining().drop_first());
            match self.bucket.get(self.start) {
                Some(entry) => Some((entry, rest)),
                None => None,
            }
        } else {
            None
        }
    }

    /// Splits off the last entry that is left, if any.
    pub fn split_last(self) -> (split: Option<(&'a T, Self)>)
        requires
            self.wf(),
        ensures
            self.remaining().len() == 0 ==> split is None,
            self.remaining().len() > 0 ==> split is Some && split.unwrap().1.wf()
                && *split.unwrap().0 == self.remaining().last() && split.unwrap().1.remaining()
                == self.remaining().drop_last(),
    {
        if self.start < self.end {
            let rest = Entries { bucket: self.bucket, start: self.start, end: self.end - 1 };
            assert(rest.remaining() =~= self.remaining().drop_last());
            match self.bucket.get(self.end - 1) {
                Some(entry) => Some((entry, rest)),
                None => None,
            }
        } else {
            None
        }
    }
}

/// What is left of an optional run of entries.
pub open spec fn remaining_of<T>(entries: Option<Entries<'_, T>>) -> Seq<T> {
    match entries {
        Some(entries) => entries.remaining(),
        None => Seq::empty(),
    }
}

/// An iterator yielding shared references to the elements of a bucket vector.
#[derive(Debug)]
pub struct Iter<'a, T> {
    /// The buckets of the bucket vector.
    buckets: &'a Vec<Bucket<T>>,
    /// Index of the first bucket that has not been opened.
    start: usize,
    /// Index after the last bucket that has not been opened.
    end: usize,
    /// Front iterator for `next`.
    front_iter: Option<Entries<'a, T>>,
    /// Back iterator for `next_back`.
    back_iter: Option<Entries<'a, T>>,
    /// Number of elements that are to be yielded by the iterator.
    len: usize,
}

impl<'a, T> Iter<'a, T> {
    /// The elements that the iterator has not yielded, in the order in which
    /// `next` yields them.
    pub closed spec fn elements(&self) -> Seq<T> {
        remaining_of(self.front_iter) + concat(
            views(self.buckets@.subrange(self.start as int, self.end as int)),
        ) + remaining_of(self.back_iter)
    }

    #[verifier::type_invariant]
    spec fn inv(&self) -> bool {
        &&& self.start <= self.end <= self.buckets@.len()
        &&& self.front_iter matches Some(entries) ==> entries.wf()
        &&& self.back_iter matches Some(entries) ==> entries.wf()
        &&& self.len == self.elements().len()
    }

    /// Creates a new iterator over the bucket vector.
    pub fn new<C: BucketVecConfig>(vec: &'a BucketVec<T, C>) -> (iter: Self)
        requires
            vec.wf(),
        ensures
            iter.elements() == vec@,
    {
        let (buckets, len) = vec.parts();
        proof {
            assert(buckets@.subrange(0, buckets@.len() as int) =~= buckets@);
            assert(Seq::<T>::empty() + concat(views(buckets@)) + Seq::<T>::empty() =~= concat(
                views(buckets@),
            ));
        }
        Self { buckets, start: 0, end: buckets.len(), front_iter: None, back_iter: None, len }
    }
}

impl<'a, T> Iterator for Iter<'a, T> {
    type Item = &'a T;

    fn next(&mut self) -> (item: Option<&'a T>)
        ensures
            old(self).elements().len() == 0 ==> item is None && final(self).elements() == old(
                self,
            ).elements(),
            old(self).elements().len() > 0 ==> item == Some(&old(self).elements()[0])
                && final(self).elements() == old(self).elements().drop_first(),
    {
        proof {
            use_type_invariant(&*self);
        }
        let buckets = self.buckets;
        let end = self.end;
        let back_iter = self.back_iter;
        let len = self.len;
        let mut start = self.start;
        let mut front_iter = self.front_iter;
        loop
            invariant
                start <= end <= buckets@.len(),
                front_iter matches Some(entries) ==> entries.wf(),
                back_iter matches Some(entries) ==> entries.wf(),
                remaining_of(front_iter) + concat(views(buckets@.subrange(start as int, end as int)))
                    + remaining_of(back_iter) == old(self).elements(),
                len == old(self).elements().len(),
                buckets == old(self).buckets,
                end == old(self).end,
                back_iter == old(self).back_iter,
                *self == *old(self),
            decreases end - start,
        {
            if let Some(entries) = front_iter {
                if let Some((item, rest)) = entries.split_first() {
                    proof {
                        assert(rest.remaining() + concat(
                            views(buckets@.subrange(start as int, end as int)),
                        ) + remaining_of(back_iter) =~= old(self).elements().drop_first());
                    }
                    *self = Iter {
                        buckets,
                        start,
                        end,
                        front_iter: Some(rest),
                        back_iter,
                        len: len - 1,
                    };
                    proof {
                        lemma_as_ref_drop_first(old(self).elements());
                    }
                    return Some(item);
                }
            }
            if start < end {
                proof {
                    let unopened = buckets@.subrange(start as int, end as int);
                    lemma_concat_first(views(unopened));
                    assert(views(unopened).drop_first() =~= views(
                        buckets@.subrange(start + 1, end as int),
                    ));
                    assert(remaining_of(front_iter) =~= Seq::<T>::empty());
                }
                front_iter = Some(Entries::new(&buckets[start]));
                start = start + 1;
            } else {
                proof {
                    assert(views(buckets@.subrange(start as int, end as int)) =~= Seq::<
                        Seq<T>,
                    >::empty());
                    assert(remaining_of(front_iter) =~= Seq::<T>::empty());
                    assert(remaining_of(back_iter) =~= old(self).elements());
                }
                if let Some(entries) = back_iter {
                    if let Some((item, rest)) = entries.split_first() {
                        proof {
                            assert(remaining_of(front_iter) + concat(
                                views(buckets@.subrange(start as int, end as int)),
                            ) + rest.remaining() =~= old(self).elements().drop_first());
                        }
                        *self = Iter {
                            buckets,
                            start,
                            end,
                            front_iter,
                            back_iter: Some(rest),
                            len: len - 1,
                        };
                        proof {
                            lemma_as_ref_drop_first(old(self).elements());
                        }
                        return Some(item);
                    }
                }
                return None;
            }
        }
    }

    fn size_hint(&self) -> (hint: (usize, Option<usize>))
        ensures
            hint.0 == self.elements().len(),
            hint.1 == Some(hint.0),
    {
        (self.len(), Some(self.len()))
    }
}

impl<'a, T> IteratorSpecImpl for Iter<'a, T> {
    open spec fn obeys_prophetic_iter_laws(&self) -> bool {
        true
    }

    open spec fn remaining(&self) -> Seq<Self::Item> {
        self.elements().as_ref()
    }

    open spec fn will_return_none(&self) -> bool {
        true
    }

    open spec fn decrease(&self) -> Option<nat> {
        Some(self.elements().len())
    }

    open spec fn initial_value_relation(&self, init: &Self) -> bool {
        init.elements() == self.elements()
    }

    open spec fn peek(&self, index: int) -> Option<Self::Item> {
        if 0 <= index < self.elements().len() {
            Some(&self.elements()[index])
        } else {
            None
        }
    }
}

impl<'a, T> DoubleEndedIterator for Iter<'a, T> {
    fn next_back(&mut self) -> (item: Option<&'a T>)
        ensures
            old(self).elements().len() == 0 ==> item is None && final(self).elements() == old(
                self,
            ).elements(),
            old(self).elements().len() > 0 ==> item == Some(&old(self).elements().last())
                && final(self).elements() == old(self).elements().drop_last(),
    {
        proof {
            use_type_invariant(&*self);
        }
        let buckets = self.buckets;
        let start = self.start;
        let front_iter = self.front_iter;
        let len = self.len;
        let mut end = self.end;
        let mut back_iter = self.back_iter;
        loop
            invariant
                start <= end <= buckets@.len(),
                front_iter matches Some(entries) ==> entries.wf(),
                back_iter matches Some(entries) ==> entries.wf(),
                remaining_of(front_iter) + concat(views(buckets@.subrange(start as int, end as int)))
                    + remaining_of(back_iter) == old(self).elements(),
                len == old(self).elements().len(),
                *self == *old(self),
            decreases end - start,
        {
            if let Some(entries) = back_iter {
                if let Some((item, rest)) = entries.split_last() {
                    proof {
                        assert(remaining_of(front_iter) + concat(
                            views(buckets@.subrange(start as int, end as int)),
                        ) + rest.remaining() =~= old(self).elements().drop_last());
                    }
                    *self = Iter {
                        buckets,
                        start,
                        end,
                        front_iter,
                        back_iter: Some(rest),
                        len: len - 1,
                    };
                    proof {
                        lemma_as_ref_drop_last(old(self).elements());
                    }
                    return Some(item);
                }
            }
            if start < end {
                proof {
                    let unopened = buckets@.subrange(start as int, end as int);
                    lemma_concat_last(views(unopened));
                    assert(views(unopened).drop_last() =~= views(
                        buckets@.subrange(start as int, end - 1),
                    ));
                    assert(remaining_of(back_iter) =~= Seq::<T>::empty());
                }
                end = end - 1;
                back_iter = Some(Entries::new(&buckets[end]));
            } else {
                proof {
                    assert(views(buckets@.subrange(start as int, end as int)) =~= Seq::<
                        Seq<T>,
                    >::empty());
                    assert(remaining_of(back_iter) =~= Seq::<T>::empty());
                    assert(remaining_of(front_iter) =~= old(self).elements());
                }
                if let Some(entries) = front_iter {
                    if let Some((item, rest)) = entries.split_last() {
                        proof {
                            assert(rest.remaining() + concat(
                                views(buckets@.subrange(start as int, end as int)),
                            ) + remaining_of(back_iter) =~= old(self).elements().drop_last());
                        }
                        *self = Iter {
                            buckets,
                            start,
                            end,
                            front_iter: Some(rest),
                            back_iter,
                            len: len - 1,
                        };
                        proof {
                            lemma_as_ref_drop_last(old(self).elements());
                        }
                        return Some(item);
                    }
                }
                return None;
            }
        }
    }
}

impl<'a, T> DoubleEndedIteratorSpecImpl for Iter<'a, T> {
    open spec fn peek_back(&self, index: int) -> Option<Self::Item> {
        let len = self.elements().len();
        if 0 <= index < len {
            Some(&self.elements()[len - index - 1])
        } else {
            None
        }
    }
}

impl<'a, T> ExactSizeIterator for Iter<'a, T> {
    fn len(&self) -> (len: usize)
        ensures
            len == self.elements().len(),
    {
        proof {
            use_type_invariant(self);
        }
        self.len
    }
}

/// Dropping the first element commutes with taking references.
proof fn lemma_as_ref_drop_first<T>(elements: Seq<T>)
    requires
        elements.len() > 0,
    ensures
        elements.drop_first().as_ref() == elements.as_ref().drop_first(),
        elements.as_ref()[0] == &elements[0],
{
    assert(elements.drop_first().as_ref() =~= elements.as_ref().drop_first());
}

/// Dropping the last element commutes with taking references.
proof fn lemma_as_ref_drop_last<T>(elements: Seq<T>)
    requires
        elements.len() > 0,
    ensures
        elements.drop_last().as_ref() == elements.as_ref().drop_last(),
        elements.as_ref().last() == &elements.last(),
{
    assert(elements.drop_last().as_ref() =~= elements.as_ref().drop_last());
}

impl<'a, T> Clone for Iter<'a, T> {
    fn clone(&self) -> (copy: Self)
        ensures
            copy.elements() == self.elements(),
    {
        proof {
            use_type_invariant(self);
        }
        Self {
            buckets: self.buckets,
            start: self.start,
            end: self.end,
            front_iter: self.front_iter,
            back_iter: self.back_iter,
            len: self.len,
        }
    }
}

/// An iterator yielding exclusive references to the elements of a bucket
/// vector, one at a time.
///
/// The iterator holds the exclusive borrow of the bucket vector for as long
/// as it lives; each reference that it yields has to be let go before the
/// next step.
#[derive(Debug)]
pub struct IterMut<'a, T, C: BucketVecConfig> {
    /// The bucket vector.
    pub vec: &'a mut BucketVec<T, C>,
    /// The place of the element that `next` yields.
    pub front: Cursor,
    /// The place behind the element that `next_back` yields.
    pub back: Cursor,
    /// Number of elements that are to be yielded by the iterator.
    pub len: usize,
}

impl<'a, T, C: BucketVecConfig> IterMut<'a, T, C> {
    /// The cursors lie inside the bucket vector, `len` elements apart.
    pub open spec fn wf(&self) -> bool {
        &&& self.vec.wf()
        &&& cursor_wf(self.vec.bucket_views(), self.front)
        &&& cursor_wf(self.vec.bucket_views(), self.back)
        &&& place(self.vec.bucket_views(), self.front) + self.len == place(
            self.vec.bucket_views(),
            self.back,
        )
    }

    /// The index in the bucket vector of the element that `next` yields.
    pub open spec fn position(&self) -> int {
        place(self.vec.bucket_views(), self.front)
    }

    /// The elements that the iterator has not yielded, in the order in which
    /// `next` yields them.
    pub open spec fn elements(&self) -> Seq<T> {
        self.vec@.subrange(self.position(), self.position() + self.len)
    }

    /// Creates a new iterator over the bucket vector.
    pub fn new(vec: &'a mut BucketVec<T, C>) -> (iter: Self)
        requires
            old(vec).wf(),
        ensures
            iter.wf(),
            iter.position() == 0,
            iter.len == old(vec)@.len(),
            *iter.vec == *old(vec),
            *final(iter.vec) == *final(vec),
    {
        let len = vec.len();
        let count = vec.bucket_count();
        proof {
            vec.lemma_layout();
            let chunks = vec.bucket_views();
            assert(chunks.take(0) =~= Seq::<Seq<T>>::empty());
            assert(chunks.take(chunks.len() as int) =~= chunks);
        }
        Self {
            vec,
            front: Cursor { bucket: 0, entry: 0 },
            back: Cursor { bucket: count, entry: 0 },
            len,
        }
    }

    /// Returns the exact number of elements that are left.
    pub fn len(&self) -> (len: usize)
        ensures
            len == self.len,
    {
        self.len
    }

    /// Yields the first of the elements that are left, if any.
    ///
    /// Whatever is written through the reference replaces that element in
    /// the bucket vector; all other elements stay as they are.
    pub fn next(&mut self) -> (item: Option<&mut T>)
        requires
            old(self).wf(),
        ensures
            final(self).wf(),
            *final(final(self).vec) == *final(old(self).vec),
            old(self).len == 0 ==> item is None && final(self).len == 0 && final(self).position()
                == old(self).position() && final(self).vec@ == old(self).vec@,
            old(self).len > 0 ==> item is Some && *item.unwrap() == old(self).elements()[0]
                && final(self).len == old(self).len - 1 && final(self).position() == old(
                self,
            ).position() + 1 && final(self).vec@ == old(self).vec@.update(
                old(self).position(),
                *final(item.unwrap()),
            ) && final(self).elements() =~= old(self).elements().drop_first(),
    {
        if self.len == 0 {
            return None;
        }
        let ghost chunks = self.vec.bucket_views();
        let ghost position = self.position();
        let mut cursor = self.front;
        let count = self.vec.bucket_count();
        proof {
            self.vec.lemma_layout();
            lemma_place_bounds(chunks, self.front);
            lemma_place_bounds(chunks, self.back);
        }
        while cursor.entry == self.vec.entries_in(cursor.bucket)
            invariant
                *self == *old(self),
                count == chunks.len(),
                self.wf(),
                self.len > 0,
                chunks == self.vec.bucket_views(),
                concat(chunks) == self.vec@,
                cursor.bucket < chunks.len(),
                cursor_wf(chunks, cursor),
                place(chunks, cursor) == position,
                position == self.position(),
                position + self.len <= concat(chunks).len(),
            decreases chunks.len() - cursor.bucket,
        {
            proof {
                lemma_place_bounds(chunks, cursor);
                lemma_offset_step(chunks, cursor.bucket as int);
                if cursor.bucket + 1 == chunks.len() {
                    assert(chunks.take(chunks.len() as int) =~= chunks);
                }
            }
            cursor = Cursor { bucket: cursor.bucket + 1, entry: 0 };
        }
        proof {
            lemma_concat_index(chunks, cursor.bucket as int, cursor.entry as int);
            lemma_entry_replaced(chunks, cursor.bucket as int, cursor.entry as int);
        }
        self.front = Cursor { bucket: cursor.bucket, entry: cursor.entry + 1 };
        self.len = self.len - 1;
        Some(self.vec.entry_mut(cursor.bucket, cursor.entry))
    }

    /// Yields the last of the elements that are left, if any.
    ///
    /// Whatever is written through the reference replaces that element in
    /// the bucket vector; all other elements stay as they are.
    pub fn next_back(&mut self) -> (item: Option<&mut T>)
        requires
            old(self).wf(),
        ensures
            final(self).wf(),
            *final(final(self).vec) == *final(old(self).vec),
            final(self).position() == old(self).position(),
            old(self).len == 0 ==> item is None && final(self).len == 0 && final(self).vec@ == old(
                self,
            ).vec@,
            old(self).len > 0 ==> item is Some && *item.unwrap() == old(self).elements().last()
                && final(self).len == old(self).len - 1 && final(self).vec@ == old(
                self,
            ).vec@.update(old(self).position() + old(self).len - 1, *final(item.unwrap()))
                && final(self).elements() =~= old(self).elements().drop_last(),
    {
        if self.len == 0 {
            return None;
        }
        let ghost chunks = self.vec.bucket_views();
        let ghost position = self.position();
        let mut cursor = self.back;
        proof {
            self.vec.lemma_layout();
            lemma_place_bounds(chunks, self.front);
            lemma_place_bounds(chunks, self.back);
            assert(chunks.take(0) =~= Seq::<Seq<T>>::empty());
        }
        while cursor.entry == 0
            invariant
                *self == *old(self),
                self.wf(),
                self.len > 0,
                chunks == self.vec.bucket_views(),
                concat(chunks) == self.vec@,
                cursor_wf(chunks, cursor),
                place(chunks, cursor) == position + self.len,
                position == self.position(),
                0 <= position,
            decreases cursor.bucket,
        {
            proof {
                if cursor.bucket == 0 {
                    assert(chunks.take(0) =~= Seq::<Seq<T>>::empty());
                }
                lemma_offset_step(chunks, cursor.bucket - 1);
            }
            let bucket = cursor.bucket - 1;
            cursor = Cursor { bucket, entry: self.vec.entries_in(bucket) };
        }
        proof {
            lemma_concat_index(chunks, cursor.bucket as int, cursor.entry - 1);
            lemma_entry_replaced(chunks, cursor.bucket as int, cursor.entry - 1);
        }
        self.back = Cursor { bucket: cursor.bucket, entry: cursor.entry - 1 };
        self.len = self.len - 1;
        Some(self.vec.entry_mut(cursor.bucket, cursor.entry - 1))
    }
}

/// Moves the elements of a vector into a queue, in their order.
fn deque_from_vec<T>(entries: Vec<T>) -> (deque: VecDeque<T>)
    ensures
        deque@ == entries@,
{
    let mut entries = entries;
    let mut deque: VecDeque<T> = VecDeque::with_capacity(entries.len());
    let ghost all = entries@;
    loop
        invariant
            entries@ + deque@ == all,
        ensures
            deque@ == all,
        decreases entries@.len(),
    {
        let ghost left = entries@;
        let ghost moved = deque@;
        match entries.pop() {
            Some(entry) => {
                deque.push_front(entry);
                proof {
                    assert(entries@ + deque@ =~= left + moved);
                }
            },
            None => {
                proof {
                    assert(left + moved =~= moved);
                }
                break ;
            },
        }
    }
    deque
}

/// What is left of an optional queue of entries.
pub open spec fn queued<T>(entries: Option<VecDeque<T>>) -> Seq<T> {
    match entries {
        Some(entries) => entries@,
        None => Seq::empty(),
    }
}

/// An iterator yielding the elements of a bucket vector by value.
#[derive(Debug)]
pub struct IntoIter<T> {
    /// The buckets that have not been opened.
    buckets: VecDeque<Bucket<T>>,
    /// Front iterator for `next`.
    front_iter: Option<VecDeque<T>>,
    /// Back iterator for `next_back`.
    back_iter: Option<VecDeque<T>>,
    /// Number of elements that are to be yielded by the iterator.
    len: usize,
}

impl<T> IntoIter<T> {
    /// The elements that the iterator has not yielded, in the order in which
    /// `next` yields them.
    pub closed spec fn elements(&self) -> Seq<T> {
        queued(self.front_iter) + concat(views(self.buckets@)) + queued(self.back_iter)
    }

    #[verifier::type_invariant]
    spec fn inv(&self) -> bool {
        self.len == self.elements().len()
    }

    /// Creates a new iterator over the bucket vector.
    pub fn new<C: BucketVecConfig>(vec: BucketVec<T, C>) -> (iter: Self)
        requires
            vec.wf(),
        ensures
            iter.elements() == vec@,
    {
        let (buckets, len) = vec.into_parts();
        let buckets = deque_from_vec(buckets);
        proof {
            assert(Seq::<T>::empty() + concat(views(buckets@)) + Seq::<T>::empty() =~= concat(
                views(buckets@),
            ));
        }
        Self { buckets, front_iter: None, back_iter: None, len }
    }

    /// An iterator that has nothing left to yield.
    fn exhausted() -> (iter: Self)
        ensures
            iter.elements() == Seq::<T>::empty(),
    {
        let buckets: VecDeque<Bucket<T>> = VecDeque::new();
        proof {
            assert(views(buckets@) =~= Seq::<Seq<T>>::empty());
            assert(Seq::<T>::empty() + concat(views(buckets@)) + Seq::<T>::empty() =~= Seq::<
                T,
            >::empty());
        }
        Self { buckets, front_iter: None, back_iter: None, len: 0 }
    }
}

impl<T> Iterator for IntoIter<T> {
    type Item = T;

    fn next(&mut self) -> (item: Option<T>)
        ensures
            old(self).elements().len() == 0 ==> item is None && final(self).elements() == old(
                self,
            ).elements(),
            old(self).elements().len() > 0 ==> item == Some(old(self).elements()[0])
                && final(self).elements() == old(self).elements().drop_first(),
    {
        proof {
            use_type_invariant(&*self);
        }
        let mut taken = Self::exhausted();
        core::mem::swap(self, &mut taken);
        let IntoIter { mut buckets, mut front_iter, mut back_iter, len } = taken;
        loop
            invariant
                queued(front_iter) + concat(views(buckets@)) + queued(back_iter) == old(
                    self,
                ).elements(),
                len == old(self).elements().len(),
            decreases buckets@.len(),
        {
            if let Some(entries) = &mut front_iter {
                if let Some(item) = entries.pop_front() {
                    proof {
                        assert(queued(front_iter) + concat(views(buckets@)) + queued(back_iter)
                            =~= old(self).elements().drop_first());
                    }
                    *self = IntoIter { buckets, front_iter, back_iter, len: len - 1 };
                    return Some(item);
                }
            }
            let ghost unopened = buckets@;
            match buckets.pop_front() {
                Some(bucket) => {
                    proof {
                        assert(queued(front_iter) =~= Seq::<T>::empty());
                        lemma_concat_first(views(unopened));
                        assert(views(buckets@) =~= views(unopened).drop_first());
                        assert(views(unopened).first() == bucket@);
                    }
                    front_iter = Some(deque_from_vec(bucket.into_entries()));
                },
                None => {
                    if let Some(entries) = &mut back_iter {
                        if let Some(item) = entries.pop_front() {
                            *self = IntoIter { buckets, front_iter, back_iter, len: len - 1 };
                            return Some(item);
                        }
                    }
                    *self = IntoIter { buckets, front_iter, back_iter, len };
                    return None;
                },
            }
        }
    }

    fn size_hint(&self) -> (hint: (usize, Option<usize>))
        ensures
            hint.0 == self.elements().len(),
            hint.1 == Some(hint.0),
    {
        (self.len(), Some(self.len()))
    }
}

impl<T> DoubleEndedIterator for IntoIter<T> {
    fn next_back(&mut self) -> (item: Option<T>)
        ensures
            old(self).elements().len() == 0 ==> item is None && final(self).elements() == old(
                self,
            ).elements(),
            old(self).elements().len() > 0 ==> item == Some(old(self).elements().last())
                && final(self).elements() == old(self).elements().drop_last(),
    {
        proof {
            use_type_invariant(&*self);
        }
        let mut taken = Self::exhausted();
        core::mem::swap(self, &mut taken);
        let IntoIter { mut buckets, mut front_iter, mut back_iter, len } = taken;
        loop
            invariant
                queued(front_iter) + concat(views(buckets@)) + queued(back_iter) == old(
                    self,
                ).elements(),
                len == old(self).elements().len(),
            decreases buckets@.len(),
        {
            if let Some(entries) = &mut back_iter {
                if let Some(item) = entries.pop_back() {
                    proof {
                        assert(queued(front_iter) + concat(views(buckets@)) + queued(back_iter)
                            =~= old(self).elements().drop_last());
                    }
                    *self = IntoIter { buckets, front_iter, back_iter, len: len - 1 };
                    return Some(item);
                }
            }
            let ghost unopened = buckets@;
            match buckets.pop_back() {
                Some(bucket) => {
                    proof {
                        assert(queued(back_iter) =~= Seq::<T>::empty());
                        lemma_concat_last(views(unopened));
                        assert(views(buckets@) =~= views(unopened).drop_last());
                        assert(views(unopened).last() == bucket@);
                    }
                    back_iter = Some(deque_from_vec(bucket.into_entries()));
                },
                None => {
                    proof {
                        assert(views(buckets@) =~= Seq::<Seq<T>>::empty());
                        assert(queued(back_iter) =~= Seq::<T>::empty());
                    }
                    if let Some(entries) = &mut front_iter {
                        if let Some(item) = entries.pop_back() {
                            proof {
                                assert(queued(front_iter) + concat(views(buckets@)) + queued(
                                    back_iter,
                                ) =~= old(self).elements().drop_last());
                            }
                            *self = IntoIter { buckets, front_iter, back_iter, len: len - 1 };
                            return Some(item);
                        }
                    }
                    *self = IntoIter { buckets, front_iter, back_iter, len };
                    return None;
                },
            }
        }
    }
}

impl<T> DoubleEndedIteratorSpecImpl for IntoIter<T> {
    open spec fn peek_back(&self, index: int) -> Option<Self::Item> {
        let len = self.elements().len();
        if 0 <= index < len {
            Some(self.elements()[len - index - 1])
        } else {
            None
        }
    }
}

impl<T> ExactSizeIterator for IntoIter<T> {
    fn len(&self) -> (len: usize)
        ensures
            len == self.elements().len(),
    {
        proof {
            use_type_invariant(self);
        }
        self.len
    }
}

impl<T> IteratorSpecImpl for IntoIter<T> {
    open spec fn obeys_prophetic_iter_laws(&self) -> bool {
        true
    }

    open spec fn remaining(&self) -> Seq<Self::Item> {
        self.elements()
    }

    open spec fn will_return_none(&self) -> bool {
        true
    }

    open spec fn decrease(&self) -> Option<nat> {
        Some(self.elements().len())
    }

    open spec fn initial_value_relation(&self, init: &Self) -> bool {
        init.elements() == self.elements()
    }

    open spec fn peek(&self, index: int) -> Option<Self::Item> {
        if 0 <= index < self.elements().len() {
            Some(self.elements()[index])
        } else {
            None
        }
    }
}

} // verus!
