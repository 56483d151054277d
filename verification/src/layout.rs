//! How a sequence of buckets lays out one logical sequence of elements.

use crate::bucket::Bucket;
use vstd::prelude::*;

verus! {

/// The chunks one after the other, as a single sequence.
pub open spec fn concat<T>(chunks: Seq<Seq<T>>) -> Seq<T>
    decreases chunks.len(),
{
    if chunks.len() == 0 {
        Seq::empty()
    } else {
        concat(chunks.drop_last()) + chunks.last()
    }
}

/// The entries of each bucket.
pub open spec fn views<T>(buckets: Seq<Bucket<T>>) -> Seq<Seq<T>> {
    Seq::new(buckets.len(), |i: int| buckets[i]@)
}

/// The position in the whole sequence at which chunk `index` starts.
pub open spec fn offset<T>(chunks: Seq<Seq<T>>, index: int) -> nat {
    concat(chunks.take(index)).len()
}

/// Appending a chunk appends its elements.
pub proof fn lemma_concat_push<T>(chunks: Seq<Seq<T>>, chunk: Seq<T>)
    ensures
        concat(chunks.push(chunk)) == concat(chunks) + chunk,
{
    assert(chunks.push(chunk).drop_last() =~= chunks);
}

/// Two runs of chunks one after the other lay out the elements of the
/// first run followed by those of the second.
pub proof fn lemma_concat_add<T>(left: Seq<Seq<T>>, right: Seq<Seq<T>>)
    ensures
        concat(left + right) == concat(left) + concat(right),
    decreases right.len(),
{
    if right.len() == 0 {
        assert(left + right =~= left);
        assert(concat(left) + concat(right) =~= concat(left));
    } else {
        lemma_concat_add(left, right.drop_last());
        assert((left + right).drop_last() =~= left + right.drop_last());
        assert((left + right).last() == right.last());
        assert(concat(left + right) =~= concat(left) + concat(right));
    }
}

/// A single chunk lays out its own elements.
pub proof fn lemma_concat_one<T>(chunk: Seq<T>)
    ensures
        concat(seq![chunk]) == chunk,
{
    let one = seq![chunk];
    assert(one.drop_last() =~= Seq::<Seq<T>>::empty());
    assert(concat(one.drop_last()) =~= Seq::<T>::empty());
    assert(concat(one) =~= chunk);
}

/// The elements start with those of the first chunk.
pub proof fn lemma_concat_first<T>(chunks: Seq<Seq<T>>)
    requires
        chunks.len() > 0,
    ensures
        concat(chunks) == chunks.first() + concat(chunks.drop_first()),
{
    assert(chunks =~= seq![chunks.first()] + chunks.drop_first());
    lemma_concat_add(seq![chunks.first()], chunks.drop_first());
    lemma_concat_one(chunks.first());
}

/// The elements end with those of the last chunk.
pub proof fn lemma_concat_last<T>(chunks: Seq<Seq<T>>)
    requires
        chunks.len() > 0,
    ensures
        concat(chunks) == concat(chunks.drop_last()) + chunks.last(),
{
}

/// A run of chunks splits at any chunk boundary.
pub proof fn lemma_concat_split<T>(chunks: Seq<Seq<T>>, index: int)
    requires
        0 <= index <= chunks.len(),
    ensures
        concat(chunks) == concat(chunks.take(index)) + concat(chunks.skip(index)),
        offset(chunks, index) <= concat(chunks).len(),
{
    assert(chunks =~= chunks.take(index) + chunks.skip(index));
    lemma_concat_add(chunks.take(index), chunks.skip(index));
}

/// Each chunk starts where the one before it ends.
pub proof fn lemma_offset_step<T>(chunks: Seq<Seq<T>>, index: int)
    requires
        0 <= index < chunks.len(),
    ensures
        offset(chunks, index + 1) == offset(chunks, index) + chunks[index].len(),
        offset(chunks, index + 1) <= concat(chunks).len(),
        offset(chunks, 0) == 0,
        offset(chunks, chunks.len() as int) == concat(chunks).len(),
{
    assert(chunks.take(index + 1).drop_last() =~= chunks.take(index));
    assert(chunks.take(index + 1).last() == chunks[index]);
    lemma_concat_split(chunks, index + 1);
    assert(chunks.take(0) =~= Seq::<Seq<T>>::empty());
    assert(chunks.take(chunks.len() as int) =~= chunks);
}

/// The element at position `entry` of chunk `index` is the element of the
/// whole sequence that lies `entry` places after the chunk's start.
pub proof fn lemma_concat_index<T>(chunks: Seq<Seq<T>>, index: int, entry: int)
    requires
        0 <= index < chunks.len(),
        0 <= entry < chunks[index].len(),
    ensures
        offset(chunks, index) + entry < concat(chunks).len(),
        concat(chunks)[offset(chunks, index) + entry] == chunks[index][entry],
{
    lemma_concat_split(chunks, index);
    lemma_concat_first(chunks.skip(index));
    assert(chunks.skip(index).first() == chunks[index]);
}

/// Replacing one element of one chunk replaces the element of the whole
/// sequence at the matching position.
pub proof fn lemma_concat_update<T>(chunks: Seq<Seq<T>>, index: int, entry: int, value: T)
    requires
        0 <= index < chunks.len(),
        0 <= entry < chunks[index].len(),
    ensures
        offset(chunks, index) + entry < concat(chunks).len(),
        concat(chunks.update(index, chunks[index].update(entry, value))) == concat(chunks).update(
            offset(chunks, index) + entry,
            value,
        ),
{
    let changed = chunks.update(index, chunks[index].update(entry, value));
    lemma_concat_index(chunks, index, entry);
    lemma_concat_split(chunks, index);
    lemma_concat_split(changed, index);
    lemma_concat_first(chunks.skip(index));
    lemma_concat_first(changed.skip(index));
    assert(changed.take(index) =~= chunks.take(index));
    assert(changed.skip(index).drop_first() =~= chunks.skip(index).drop_first());
    assert(changed.skip(index).first() == chunks[index].update(entry, value));
    assert(chunks.skip(index).first() == chunks[index]);
    assert(concat(changed) =~= concat(chunks).update(offset(chunks, index) + entry, value));
}

/// Appending an element to the last chunk appends it to the whole sequence.
pub proof fn lemma_concat_push_last<T>(chunks: Seq<Seq<T>>, value: T)
    requires
        chunks.len() > 0,
    ensures
        concat(chunks.update(chunks.len() - 1, chunks.last().push(value))) == concat(chunks).push(
            value,
        ),
{
    let changed = chunks.update(chunks.len() - 1, chunks.last().push(value));
    assert(changed.drop_last() =~= chunks.drop_last());
    assert(concat(changed) =~= concat(chunks).push(value));
}

/// Where the chunks start depends on their lengths alone.
pub proof fn lemma_offset_same_lengths<T>(before: Seq<Seq<T>>, after: Seq<Seq<T>>, index: int)
    requires
        before.len() == after.len(),
        forall|i: int| 0 <= i < before.len() ==> (#[trigger] before[i]).len() == after[i].len(),
        0 <= index <= before.len(),
    ensures
        offset(after, index) == offset(before, index),
    decreases index,
{
    if index == 0 {
        assert(before.take(0) =~= Seq::<Seq<T>>::empty());
        assert(after.take(0) =~= Seq::<Seq<T>>::empty());
    } else {
        lemma_offset_same_lengths(before, after, index - 1);
        lemma_offset_step(before, index - 1);
        lemma_offset_step(after, index - 1);
        assert(before[index - 1].len() == after[index - 1].len());
    }
}

/// Chunks that are clones of each other, entry by entry, lay out sequences
/// that are clones of each other, element by element.
pub proof fn lemma_concat_cloned<T: Clone>(source: Seq<Seq<T>>, copy: Seq<Seq<T>>)
    requires
        source.len() == copy.len(),
        forall|i: int| 0 <= i < source.len() ==> (#[trigger] source[i]).len() == copy[i].len(),
        forall|i: int, j: int|
            0 <= i < source.len() && 0 <= j < source[i].len() ==> cloned::<T>(
                source[i][j],
                #[trigger] copy[i][j],
            ),
    ensures
        concat(source).len() == concat(copy).len(),
        forall|k: int|
            0 <= k < concat(source).len() ==> cloned::<T>(
                concat(source)[k],
                #[trigger] concat(copy)[k],
            ),
    decreases source.len(),
{
    if source.len() > 0 {
        lemma_concat_cloned(source.drop_last(), copy.drop_last());
        let last = source.len() - 1;
        assert(source[last].len() == copy[last].len());
        assert forall|k: int| 0 <= k < concat(source).len() implies cloned::<T>(
            concat(source)[k],
            #[trigger] concat(copy)[k],
        ) by {
            let head = concat(source.drop_last()).len();
            if k < head {
                assert(concat(copy)[k] == concat(copy.drop_last())[k]);
            } else {
                assert(concat(copy)[k] == copy[last][k - head]);
                assert(concat(source)[k] == source[last][k - head]);
            }
        }
    }
}

} // verus!
