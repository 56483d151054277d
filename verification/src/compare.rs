//! Equality and order of bucket vectors: those of their element
//! sequences, whatever the buckets are that hold them.

use crate::cursor::{cursor_wf, entry_at, place, Cursor};
use crate::layout::{concat, views};
use crate::BucketVec;
use core::cmp::Ordering;
use core::hash::{Hash, Hasher};
use vstd::prelude::*;
use vstd::std_specs::cmp::{OrdSpec, PartialEqSpec, PartialEqSpecImpl, PartialOrdSpec, PartialOrdSpecImpl};

verus! {

/// The sequences are equal element by element, as `eq` of the elements
/// has it.
pub open spec fn elements_eq<T: PartialEq>(left: Seq<T>, right: Seq<T>) -> bool {
    &&& left.len() == right.len()
    &&& forall|i: int| 0 <= i < left.len() ==> #[trigger] left[i].eq_spec(&right[i])
}

/// The lexicographic order of two sequences by `partial_cmp` of their
/// elements: the first pair of elements that does not compare as equal
/// decides, and if there is none, the lengths do.
pub open spec fn lexicographic_partial<T: PartialOrd>(left: Seq<T>, right: Seq<T>) -> Option<
    Ordering,
>
    decreases left.len(),
{
    if left.len() == 0 {
        if right.len() == 0 {
            Some(Ordering::Equal)
        } else {
            Some(Ordering::Less)
        }
    } else if right.len() == 0 {
        Some(Ordering::Greater)
    } else {
        match left[0].partial_cmp_spec(&right[0]) {
            Some(Ordering::Equal) => lexicographic_partial(left.drop_first(), right.drop_first()),
            decided => decided,
        }
    }
}

/// The lexicographic order of two sequences by `cmp` of their elements.
pub open spec fn lexicographic<T: Ord>(left: Seq<T>, right: Seq<T>) -> Ordering
    decreases left.len(),
{
    if left.len() == 0 {
        if right.len() == 0 {
            Ordering::Equal
        } else {
            Ordering::Less
        }
    } else if right.len() == 0 {
        Ordering::Greater
    } else {
        match left[0].cmp_spec(&right[0]) {
            Ordering::Equal => lexicographic(left.drop_first(), right.drop_first()),
            decided => decided,
        }
    }
}

impl<T: PartialEq, C, D> PartialEq<BucketVec<T, D>> for BucketVec<T, C> {
    /// Two bucket vectors are equal if they hold equal elements in the
    /// same order, whatever their configurations are.
    fn eq(&self, other: &BucketVec<T, D>) -> (equal: bool) {
        let left = self.buckets();
        let right = other.buckets();
        let mut left_at = Cursor { bucket: 0, entry: 0 };
        let mut right_at = Cursor { bucket: 0, entry: 0 };
        proof {
            assert(views(left@).take(0) =~= Seq::<Seq<T>>::empty());
            assert(views(right@).take(0) =~= Seq::<Seq<T>>::empty());
            assert(concat(Seq::<Seq<T>>::empty()).len() == 0);
        }
        loop
            invariant
                concat(views(left@)) == self@,
                concat(views(right@)) == other@,
                cursor_wf(views(left@), left_at),
                cursor_wf(views(right@), right_at),
                place(views(left@), left_at) == place(views(right@), right_at),
                0 <= place(views(left@), left_at),
                place(views(left@), left_at) <= self@.len(),
                place(views(left@), left_at) <= other@.len(),
                T::obeys_eq_spec() ==> forall|i: int|
                    0 <= i < place(views(left@), left_at) ==> #[trigger] self@[i].eq_spec(
                        &other@[i],
                    ),
            decreases self@.len() - place(views(left@), left_at),
        {
            let ghost at = place(views(left@), left_at);
            match (entry_at(left, left_at), entry_at(right, right_at)) {
                (None, None) => {
                    return true;
                },
                (Some((left_entry, left_next)), Some((right_entry, right_next))) => {
                    if !(*left_entry == *right_entry) {
                        proof {
                            if T::obeys_eq_spec() && elements_eq(self@, other@) {
                                assert(self@[at].eq_spec(&other@[at]));
                            }
                        }
                        return false;
                    }
                    left_at = left_next;
                    right_at = right_next;
                },
                _ => {
                    return false;
                },
            }
        }
    }
}

impl<T: PartialEq, C, D> PartialEqSpecImpl<BucketVec<T, D>> for BucketVec<T, C> {
    open spec fn obeys_eq_spec() -> bool {
        T::obeys_eq_spec()
    }

    open spec fn eq_spec(&self, other: &BucketVec<T, D>) -> bool {
        elements_eq(self@, other@)
    }
}

impl<T: Eq, C> Eq for BucketVec<T, C> {

}

/// `Hash::hash`: feeds the value to the hasher. Nothing is known of what
/// the hasher makes of it.
#[verifier::external_body]
fn feed<V: Hash, H: Hasher>(value: &V, state: &mut H) {
    value.hash(state)
}

impl<T: Hash, C> Hash for BucketVec<T, C> {
    /// Feeds the length and then the elements in their order to the
    /// hasher, whatever the buckets are that hold them.
    fn hash<H: Hasher>(&self, state: &mut H) {
        let len = self.stored_len();
        feed(&len, state);
        let buckets = self.buckets();
        let mut at = Cursor { bucket: 0, entry: 0 };
        proof {
            assert(views(buckets@).take(0) =~= Seq::<Seq<T>>::empty());
            assert(concat(Seq::<Seq<T>>::empty()).len() == 0);
        }
        loop
            invariant
                cursor_wf(views(buckets@), at),
                place(views(buckets@), at) <= concat(views(buckets@)).len(),
            decreases concat(views(buckets@)).len() - place(views(buckets@), at),
        {
            match entry_at(buckets, at) {
                Some((entry, next)) => {
                    feed(entry, state);
                    at = next;
                },
                None => {
                    return ;
                },
            }
        }
    }
}

impl<T: PartialOrd, C, D> PartialOrd<BucketVec<T, D>> for BucketVec<T, C> {
    /// Bucket vectors are ordered as their element sequences are,
    /// lexicographically, whatever their configurations are.
    fn partial_cmp(&self, other: &BucketVec<T, D>) -> (order: Option<Ordering>) {
        let left = self.buckets();
        let right = other.buckets();
        let mut left_at = Cursor { bucket: 0, entry: 0 };
        let mut right_at = Cursor { bucket: 0, entry: 0 };
        proof {
            assert(views(left@).take(0) =~= Seq::<Seq<T>>::empty());
            assert(views(right@).take(0) =~= Seq::<Seq<T>>::empty());
            assert(concat(Seq::<Seq<T>>::empty()).len() == 0);
            assert(self@.skip(0) =~= self@);
            assert(other@.skip(0) =~= other@);
        }
        loop
            invariant
                concat(views(left@)) == self@,
                concat(views(right@)) == other@,
                cursor_wf(views(left@), left_at),
                cursor_wf(views(right@), right_at),
                place(views(left@), left_at) == place(views(right@), right_at),
                0 <= place(views(left@), left_at) <= self@.len(),
                place(views(left@), left_at) <= other@.len(),
                T::obeys_partial_cmp_spec() ==> lexicographic_partial(self@, other@)
                    == lexicographic_partial(
                    self@.skip(place(views(left@), left_at)),
                    other@.skip(place(views(left@), left_at)),
                ),
            decreases self@.len() - place(views(left@), left_at),
        {
            let ghost at = place(views(left@), left_at);
            proof {
                assert(self@.skip(at).len() == self@.len() - at);
                assert(other@.skip(at).len() == other@.len() - at);
            }
            match (entry_at(left, left_at), entry_at(right, right_at)) {
                (None, None) => {
                    return Some(Ordering::Equal);
                },
                (None, Some(_)) => {
                    return Some(Ordering::Less);
                },
                (Some(_), None) => {
                    return Some(Ordering::Greater);
                },
                (Some((left_entry, left_next)), Some((right_entry, right_next))) => {
                    proof {
                        assert(self@.skip(at)[0] == self@[at]);
                        assert(other@.skip(at)[0] == other@[at]);
                        assert(self@.skip(at).drop_first() =~= self@.skip(at + 1));
                        assert(other@.skip(at).drop_first() =~= other@.skip(at + 1));
                    }
                    match left_entry.partial_cmp(right_entry) {
                        Some(Ordering::Equal) => {},
                        decided => {
                            return decided;
                        },
                    }
                    left_at = left_next;
                    right_at = right_next;
                },
            }
        }
    }
}

impl<T: PartialOrd, C, D> PartialOrdSpecImpl<BucketVec<T, D>> for BucketVec<T, C> {
    open spec fn obeys_partial_cmp_spec() -> bool {
        T::obeys_partial_cmp_spec()
    }

    open spec fn partial_cmp_spec(&self, other: &BucketVec<T, D>) -> Option<Ordering> {
        lexicographic_partial(self@, other@)
    }
}

impl<T: Ord, C> BucketVec<T, C> {
    /// Compares two bucket vectors as their element sequences compare,
    /// lexicographically, whatever their configurations are.
    pub fn cmp<D>(&self, other: &BucketVec<T, D>) -> (order: Ordering)
        ensures
            T::obeys_cmp_spec() ==> order == lexicographic(self@, other@),
    {
        let left = self.buckets();
        let right = other.buckets();
        let mut left_at = Cursor { bucket: 0, entry: 0 };
        let mut right_at = Cursor { bucket: 0, entry: 0 };
        proof {
            assert(views(left@).take(0) =~= Seq::<Seq<T>>::empty());
            assert(views(right@).take(0) =~= Seq::<Seq<T>>::empty());
            assert(concat(Seq::<Seq<T>>::empty()).len() == 0);
            assert(self@.skip(0) =~= self@);
            assert(other@.skip(0) =~= other@);
        }
        loop
            invariant
                concat(views(left@)) == self@,
                concat(views(right@)) == other@,
                cursor_wf(views(left@), left_at),
                cursor_wf(views(right@), right_at),
                place(views(left@), left_at) == place(views(right@), right_at),
                0 <= place(views(left@), left_at) <= self@.len(),
                place(views(left@), left_at) <= other@.len(),
                T::obeys_cmp_spec() ==> lexicographic(self@, other@) == lexicographic(
                    self@.skip(place(views(left@), left_at)),
                    other@.skip(place(views(left@), left_at)),
                ),
            decreases self@.len() - place(views(left@), left_at),
        {
            let ghost at = place(views(left@), left_at);
            proof {
                assert(self@.skip(at).len() == self@.len() - at);
                assert(other@.skip(at).len() == other@.len() - at);
            }
            match (entry_at(left, left_at), entry_at(right, right_at)) {
                (None, None) => {
                    return Ordering::Equal;
                },
                (None, Some(_)) => {
                    return Ordering::Less;
                },
                (Some(_), None) => {
                    return Ordering::Greater;
                },
                (Some((left_entry, left_next)), Some((right_entry, right_next))) => {
                    proof {
                        assert(self@.skip(at)[0] == self@[at]);
                        assert(other@.skip(at)[0] == other@[at]);
                        assert(self@.skip(at).drop_first() =~= self@.skip(at + 1));
                        assert(other@.skip(at).drop_first() =~= other@.skip(at + 1));
                    }
                    match left_entry.cmp(right_entry) {
                        Ordering::Equal => {},
                        decided => {
                            return decided;
                        },
                    }
                    left_at = left_next;
                    right_at = right_next;
                },
            }
        }
    }
}

} // verus!
