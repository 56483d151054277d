//! The shape that a configuration gives to the buckets of a bucket vector,
//! and what follows from it.

use crate::bucket::Bucket;
use crate::config::{
    lemma_bucket_count, lemma_entry_indices_within, lemma_total_capacity_step,
    spec_bucket_capacity, spec_bucket_entry_indices, spec_representable, spec_supports,
    spec_total_capacity, valid_config, BucketVecConfig,
};
use crate::layout::{
    concat, lemma_concat_index, lemma_concat_push, lemma_concat_push_last, lemma_concat_update,
    lemma_offset_step, offset, views,
};
use vstd::prelude::*;

verus! {

/// The buckets have the capacities that the configuration gives them, all
/// but the last are full, and none is empty.
pub open spec fn shaped<T, C: BucketVecConfig>(buckets: Seq<Bucket<T>>) -> bool {
    forall|i: int|
        0 <= i < buckets.len() ==> {
            let bucket = #[trigger] buckets[i];
            &&& bucket.spec_capacity() == spec_bucket_capacity::<C>(i as nat)
            &&& 0 < bucket@.len() <= bucket.spec_capacity()
            &&& i < buckets.len() - 1 ==> bucket@.len() == bucket.spec_capacity()
        }
}

/// Every entry of `before` is found in `after` in the same bucket, at the
/// same place.
pub open spec fn kept_in_place<T>(before: Seq<Seq<T>>, after: Seq<Seq<T>>) -> bool {
    &&& before.len() <= after.len()
    &&& forall|bucket: int|
        0 <= bucket < before.len() ==> (#[trigger] before[bucket]).len() <= after[bucket].len()
    &&& forall|bucket: int, entry: int|
        #![trigger after[bucket][entry]]
        #![trigger before[bucket][entry]]
        0 <= bucket < before.len() && 0 <= entry < before[bucket].len() ==> after[bucket][entry]
            == before[bucket][entry]
}

/// Entries that were kept in place twice in a row were kept in place.
pub proof fn lemma_kept_in_place_transitive<T>(
    first: Seq<Seq<T>>,
    second: Seq<Seq<T>>,
    third: Seq<Seq<T>>,
)
    requires
        kept_in_place(first, second),
        kept_in_place(second, third),
    ensures
        kept_in_place(first, third),
{
    assert forall|bucket: int| 0 <= bucket < first.len() implies (#[trigger] first[bucket]).len()
        <= third[bucket].len() by {
        assert(second[bucket].len() <= third[bucket].len());
    }
    assert forall|bucket: int, entry: int|
        #![trigger third[bucket][entry]]
        #![trigger first[bucket][entry]]
        0 <= bucket < first.len() && 0 <= entry < first[bucket].len() implies third[bucket][entry]
        == first[bucket][entry] by {
        assert(first[bucket].len() <= second[bucket].len());
        assert(second[bucket][entry] == first[bucket][entry]);
        assert(third[bucket][entry] == second[bucket][entry]);
    }
}

/// The entries of the buckets after a push of `value`: the value goes to
/// the last bucket if that has room, and to a new bucket if not.
pub open spec fn pushed<T, C: BucketVecConfig>(chunks: Seq<Seq<T>>, value: T) -> Seq<Seq<T>> {
    if chunks.len() > 0 && chunks.last().len() < spec_bucket_capacity::<C>(
        (chunks.len() - 1) as nat,
    ) {
        chunks.update(chunks.len() - 1, chunks.last().push(value))
    } else {
        chunks.push(seq![value])
    }
}

/// A push keeps every entry in its bucket, at its place, and appends the
/// pushed value to the elements.
pub proof fn lemma_pushed<T, C: BucketVecConfig>(chunks: Seq<Seq<T>>, value: T)
    ensures
        kept_in_place(chunks, pushed::<T, C>(chunks, value)),
        concat(pushed::<T, C>(chunks, value)) == concat(chunks).push(value),
{
    if chunks.len() > 0 && chunks.last().len() < spec_bucket_capacity::<C>(
        (chunks.len() - 1) as nat,
    ) {
        lemma_concat_push_last(chunks, value);
    } else {
        lemma_concat_push(chunks, seq![value]);
        assert(concat(chunks) + seq![value] =~= concat(chunks).push(value));
    }
}

/// Writing to the entry that a push has added is pushing what was written.
pub proof fn lemma_pushed_replaced<T, C: BucketVecConfig>(chunks: Seq<Seq<T>>, value: T)
    ensures
        ({
            let after = pushed::<T, C>(chunks, value);
            let bucket = after.len() - 1;
            let entry = after[bucket].len() - 1;
            forall|written: T| #[trigger]
                after.update(bucket, after[bucket].update(entry, written)) == pushed::<T, C>(
                    chunks,
                    written,
                )
        }),
{
    let after = pushed::<T, C>(chunks, value);
    let bucket = after.len() - 1;
    let entry = after[bucket].len() - 1;
    assert forall|written: T| #[trigger]
        after.update(bucket, after[bucket].update(entry, written)) == pushed::<T, C>(
            chunks,
            written,
        ) by {
        if chunks.len() > 0 && chunks.last().len() < spec_bucket_capacity::<C>(
            (chunks.len() - 1) as nat,
        ) {
            assert(after[bucket].update(entry, written) =~= chunks.last().push(written));
        } else {
            assert(after[bucket].update(entry, written) =~= seq![written]);
        }
        assert(after.update(bucket, after[bucket].update(entry, written)) =~= pushed::<T, C>(
            chunks,
            written,
        ));
    }
}

/// No buckets hold no elements.
pub proof fn lemma_no_buckets<T>(buckets: Seq<Bucket<T>>)
    requires
        buckets.len() == 0,
    ensures
        views(buckets) == Seq::<Seq<T>>::empty(),
        concat(views(buckets)) == Seq::<T>::empty(),
{
    assert(views(buckets) =~= Seq::<Seq<T>>::empty());
}

/// Where there are elements there are buckets.
pub proof fn lemma_no_buckets_no_elements<T>(buckets: Seq<Bucket<T>>)
    ensures
        concat(views(buckets)).len() > 0 ==> buckets.len() > 0,
{
    if buckets.len() == 0 {
        lemma_no_buckets(buckets);
    }
}

/// Each bucket starts at the total capacity of the buckets before it, and
/// the last bucket ends where the elements end.
pub proof fn lemma_shaped_offsets<T, C: BucketVecConfig>(buckets: Seq<Bucket<T>>, index: int)
    requires
        valid_config::<C>(),
        shaped::<T, C>(buckets),
        0 <= index < buckets.len(),
    ensures
        offset(views(buckets), index) == spec_total_capacity::<C>(index as nat),
        offset(views(buckets), index) + buckets[index]@.len() <= concat(views(buckets)).len(),
        index == buckets.len() - 1 ==> offset(views(buckets), index) + buckets[index]@.len()
            == concat(views(buckets)).len(),
    decreases index,
{
    let chunks = views(buckets);
    lemma_offset_step(chunks, index);
    lemma_total_capacity_step::<C>(0);
    if index > 0 {
        lemma_shaped_offsets::<T, C>(buckets, index - 1);
        lemma_offset_step(chunks, index - 1);
        lemma_total_capacity_step::<C>((index - 1) as nat);
        assert(chunks[index - 1] == buckets[index - 1]@);
    }
    assert(chunks[index] == buckets[index]@);
}

/// The element with index `index` is found where the configuration's
/// arithmetic locates it.
pub proof fn lemma_shaped_locate<T, C: BucketVecConfig>(buckets: Seq<Bucket<T>>, index: nat)
    requires
        valid_config::<C>(),
        shaped::<T, C>(buckets),
        index < concat(views(buckets)).len(),
    ensures
        ({
            let (bucket, entry) = spec_bucket_entry_indices::<C>(index);
            &&& 0 <= bucket < buckets.len()
            &&& 0 <= entry < buckets[bucket]@.len()
            &&& offset(views(buckets), bucket) + entry == index
            &&& concat(views(buckets))[index as int] == buckets[bucket]@[entry]
        }),
{
    let (bucket, entry) = spec_bucket_entry_indices::<C>(index);
    let count = buckets.len();
    let chunks = views(buckets);
    if count == 0 {
        lemma_no_buckets(buckets);
    }
    let last = count - 1;
    lemma_shaped_offsets::<T, C>(buckets, last);
    lemma_total_capacity_step::<C>(last as nat);
    lemma_entry_indices_within::<C>(index, count);
    lemma_shaped_offsets::<T, C>(buckets, bucket);
    assert(chunks[bucket] == buckets[bucket]@);
    lemma_concat_index(chunks, bucket, entry);
}

/// Replacing one entry of one bucket leaves the shape of the buckets as it
/// is and replaces the matching element of the whole sequence.
pub proof fn lemma_shaped_update<T, C: BucketVecConfig>(
    before: Seq<Bucket<T>>,
    after: Seq<Bucket<T>>,
    bucket: int,
    entry: int,
    value: T,
)
    requires
        shaped::<T, C>(before),
        0 <= bucket < before.len(),
        0 <= entry < before[bucket]@.len(),
        after.len() == before.len(),
        forall|i: int| 0 <= i < before.len() && i != bucket ==> after[i] == before[i],
        after[bucket]@ == before[bucket]@.update(entry, value),
        after[bucket].spec_capacity() == before[bucket].spec_capacity(),
    ensures
        shaped::<T, C>(after),
        views(after) == views(before).update(bucket, views(before)[bucket].update(entry, value)),
        offset(views(before), bucket) + entry < concat(views(before)).len(),
        concat(views(after)) == concat(views(before)).update(
            offset(views(before), bucket) + entry,
            value,
        ),
{
    assert forall|i: int| 0 <= i < after.len() implies {
        let b = #[trigger] after[i];
        &&& b.spec_capacity() == spec_bucket_capacity::<C>(i as nat)
        &&& 0 < b@.len() <= b.spec_capacity()
        &&& i < after.len() - 1 ==> b@.len() == b.spec_capacity()
    } by {
        let b = before[i];
    }
    assert(views(after) =~= views(before).update(
        bucket,
        views(before)[bucket].update(entry, value),
    ));
    assert(views(before)[bucket] == before[bucket]@);
    lemma_concat_update(views(before), bucket, entry, value);
}

/// `lemma_shaped_update`, for every bucket that differs from the one at
/// `bucket` in the entry at `entry`.
pub proof fn lemma_shaped_update_all<T, C: BucketVecConfig>(
    before: Seq<Bucket<T>>,
    bucket: int,
    entry: int,
)
    requires
        shaped::<T, C>(before),
        0 <= bucket < before.len(),
        0 <= entry < before[bucket]@.len(),
    ensures
        offset(views(before), bucket) + entry < concat(views(before)).len(),
        forall|changed: Bucket<T>, value: T|
            #![trigger before.update(bucket, changed), before[bucket]@.update(entry, value)]
            changed@ == before[bucket]@.update(entry, value) && changed.spec_capacity()
                == before[bucket].spec_capacity() ==> {
                &&& shaped::<T, C>(before.update(bucket, changed))
                &&& views(before.update(bucket, changed)) == views(before).update(
                    bucket,
                    views(before)[bucket].update(entry, value),
                )
                &&& concat(views(before.update(bucket, changed))) == concat(
                    views(before),
                ).update(offset(views(before), bucket) + entry, value)
            },
{
    assert forall|changed: Bucket<T>, value: T|
        #![trigger before.update(bucket, changed), before[bucket]@.update(entry, value)]
        changed@ == before[bucket]@.update(entry, value) && changed.spec_capacity()
            == before[bucket].spec_capacity() implies {
        &&& shaped::<T, C>(before.update(bucket, changed))
        &&& views(before.update(bucket, changed)) == views(before).update(
            bucket,
            views(before)[bucket].update(entry, value),
        )
        &&& concat(views(before.update(bucket, changed))) == concat(views(before)).update(
            offset(views(before), bucket) + entry,
            value,
        )
    } by {
        lemma_shaped_update::<T, C>(before, before.update(bucket, changed), bucket, entry, value);
    }
    assert(views(before)[bucket] == before[bucket]@);
    lemma_concat_index(views(before), bucket, entry);
}

/// Pushing an entry onto the last bucket, which has room for it, keeps the
/// shape of the buckets and the entries in their places, and appends the
/// entry to the elements.
pub proof fn lemma_shaped_push_entry<T, C: BucketVecConfig>(
    before: Seq<Bucket<T>>,
    after: Seq<Bucket<T>>,
    value: T,
)
    requires
        shaped::<T, C>(before),
        before.len() > 0,
        before.last()@.len() < before.last().spec_capacity(),
        after == before.update(before.len() - 1, after.last()),
        after.last()@ == before.last()@.push(value),
        after.last().spec_capacity() == before.last().spec_capacity(),
    ensures
        shaped::<T, C>(after),
        views(after) == pushed::<T, C>(views(before), value),
        concat(views(after)) == concat(views(before)).push(value),
{
    assert forall|i: int| 0 <= i < after.len() implies {
        let b = #[trigger] after[i];
        &&& b.spec_capacity() == spec_bucket_capacity::<C>(i as nat)
        &&& 0 < b@.len() <= b.spec_capacity()
        &&& i < after.len() - 1 ==> b@.len() == b.spec_capacity()
    } by {
        let b = before[i];
    }
    let last = before[before.len() - 1];
    assert(views(before).last() == last@);
    assert(views(after) =~= views(before).update(
        before.len() - 1,
        views(before).last().push(value),
    ));
    lemma_pushed::<T, C>(views(before), value);
}

/// Pushing a bucket of the next capacity that holds one entry onto buckets
/// that are full keeps the shape of the buckets and the entries in their
/// places, and appends the entry to the elements.
pub proof fn lemma_shaped_push_bucket<T, C: BucketVecConfig>(
    before: Seq<Bucket<T>>,
    bucket: Bucket<T>,
    value: T,
)
    requires
        valid_config::<C>(),
        shaped::<T, C>(before),
        before.len() > 0 ==> before.last()@.len() == before.last().spec_capacity(),
        bucket@ == seq![value],
        bucket.spec_capacity() == spec_bucket_capacity::<C>(before.len()),
    ensures
        shaped::<T, C>(before.push(bucket)),
        views(before.push(bucket)) == pushed::<T, C>(views(before), value),
        concat(views(before.push(bucket))) == concat(views(before)).push(value),
{
    let after = before.push(bucket);
    if before.len() > 0 {
        let last = before[before.len() - 1];
        assert(views(before).last() == last@);
    }
    lemma_total_capacity_step::<C>(before.len());
    assert forall|i: int| 0 <= i < after.len() implies {
        let b = #[trigger] after[i];
        &&& b.spec_capacity() == spec_bucket_capacity::<C>(i as nat)
        &&& 0 < b@.len() <= b.spec_capacity()
        &&& i < after.len() - 1 ==> b@.len() == b.spec_capacity()
    } by {
        if i < before.len() {
            let b = before[i];
        }
    }
    assert(views(after) =~= views(before).push(seq![value]));
    lemma_pushed::<T, C>(views(before), value);
}

/// Whether shaped buckets can take one more element: if the last bucket
/// has room, they can; if not, they can where the total capacity with one
/// more bucket fits a `usize`. Where they can, their length is below
/// `usize::MAX`.
pub proof fn lemma_can_grow<T, C: BucketVecConfig>(buckets: Seq<Bucket<T>>)
    requires
        valid_config::<C>(),
        shaped::<T, C>(buckets),
        spec_representable::<C>(buckets.len()),
    ensures
        buckets.len() > 0 && buckets.last()@.len() < buckets.last().spec_capacity()
            ==> spec_supports::<C>(concat(views(buckets)).len() + 1),
        buckets.len() == 0 || buckets.last()@.len() == buckets.last().spec_capacity() ==> (
        spec_supports::<C>(concat(views(buckets)).len() + 1) <==> spec_representable::<C>(
            buckets.len() + 1,
        )),
        spec_representable::<C>(buckets.len() + 1) ==> buckets.len() < usize::MAX,
        spec_supports::<C>(concat(views(buckets)).len() + 1) ==> concat(views(buckets)).len()
            < usize::MAX,
{
    let len = concat(views(buckets)).len();
    let count = buckets.len();
    lemma_total_capacity_step::<C>(count);
    lemma_total_capacity_step::<C>(count + 1);
    lemma_bucket_count::<C>(len + 1, count);
    lemma_bucket_count::<C>(len + 1, count + 1);
    if count == 0 {
        lemma_no_buckets(buckets);
    } else {
        lemma_shaped_offsets::<T, C>(buckets, count - 1);
        lemma_total_capacity_step::<C>((count - 1) as nat);
    }
}

} // verus!
