//! Cursors into the buckets of a bucket vector.

use crate::bucket::Bucket;
use crate::layout::{
    concat, lemma_concat_index, lemma_offset_same_lengths, lemma_offset_step, offset, views,
};
use vstd::prelude::*;

verus! {

/// A place in a bucket vector: a bucket and an entry of it.
#[derive(Debug, Clone, Copy)]
pub struct Cursor {
    /// Index of the bucket.
    pub bucket: usize,
    /// Index of the entry inside the bucket.
    pub entry: usize,
}

/// The cursor points at an entry of a chunk, or just behind the last entry
/// of a chunk, or behind the last chunk.
pub open spec fn cursor_wf<T>(chunks: Seq<Seq<T>>, cursor: Cursor) -> bool {
    ||| cursor.bucket < chunks.len() && cursor.entry <= chunks[cursor.bucket as int].len()
    ||| cursor.bucket == chunks.len() && cursor.entry == 0
}

/// The number of elements that lie before the cursor.
pub open spec fn place<T>(chunks: Seq<Seq<T>>, cursor: Cursor) -> int {
    offset(chunks, cursor.bucket as int) + cursor.entry
}

/// A cursor that is well-formed lies inside the sequence or at its end.
pub proof fn lemma_place_bounds<T>(chunks: Seq<Seq<T>>, cursor: Cursor)
    requires
        cursor_wf(chunks, cursor),
    ensures
        0 <= place(chunks, cursor) <= concat(chunks).len(),
        cursor.bucket == chunks.len() ==> place(chunks, cursor) == concat(chunks).len(),
        cursor.bucket < chunks.len() && cursor.entry == chunks[cursor.bucket as int].len()
            ==> place(chunks, cursor) == offset(chunks, cursor.bucket + 1),
{
    if cursor.bucket < chunks.len() {
        lemma_offset_step(chunks, cursor.bucket as int);
    } else {
        assert(chunks.take(chunks.len() as int) =~= chunks);
    }
}

/// Returns the entry that the cursor points at, skipping buckets that it has
/// reached the end of, together with the cursor of the entry after it.
/// Returns `None` if no entry is left at or after the cursor.
pub(crate) fn entry_at<'a, T>(buckets: &'a Vec<Bucket<T>>, cursor: Cursor) -> (found: Option<
    (&'a T, Cursor),
>)
    requires
        cursor_wf(views(buckets@), cursor),
    ensures
        found is None ==> place(views(buckets@), cursor) == concat(views(buckets@)).len(),
        found matches Some((entry, next)) ==> {
            &&& 0 <= place(views(buckets@), cursor) < concat(views(buckets@)).len()
            &&& *entry == concat(views(buckets@))[place(views(buckets@), cursor)]
            &&& cursor_wf(views(buckets@), next)
            &&& place(views(buckets@), next) == place(views(buckets@), cursor) + 1
        },
{
    let ghost chunks = views(buckets@);
    let mut at = cursor;
    loop
        invariant
            chunks == views(buckets@),
            cursor_wf(chunks, at),
            place(chunks, at) == place(chunks, cursor),
        decreases buckets@.len() - at.bucket,
    {
        proof {
            lemma_place_bounds(chunks, at);
        }
        if at.bucket == buckets.len() {
            return None;
        }
        if at.entry < buckets[at.bucket].len() {
            proof {
                lemma_concat_index(chunks, at.bucket as int, at.entry as int);
            }
            match buckets[at.bucket].get(at.entry) {
                Some(entry) => {
                    return Some((entry, Cursor { bucket: at.bucket, entry: at.entry + 1 }));
                },
                None => {},
            }
        }
        at = Cursor { bucket: at.bucket + 1, entry: 0 };
    }
}

/// Replacing one entry moves no cursor: the chunks keep their lengths, so
/// every cursor stays well-formed and keeps its place.
pub proof fn lemma_entry_replaced<T>(chunks: Seq<Seq<T>>, bucket: int, entry: int)
    requires
        0 <= bucket < chunks.len(),
        0 <= entry < chunks[bucket].len(),
    ensures
        forall|value: T, cursor: Cursor|
            #![trigger cursor_wf(chunks.update(bucket, chunks[bucket].update(entry, value)), cursor)]
            cursor_wf(chunks.update(bucket, chunks[bucket].update(entry, value)), cursor)
                == cursor_wf(chunks, cursor),
        forall|value: T, cursor: Cursor|
            #![trigger place(chunks.update(bucket, chunks[bucket].update(entry, value)), cursor)]
            cursor.bucket <= chunks.len() ==> place(
                chunks.update(bucket, chunks[bucket].update(entry, value)),
                cursor,
            ) == place(chunks, cursor),
{
    assert forall|value: T, cursor: Cursor|
        #![trigger place(chunks.update(bucket, chunks[bucket].update(entry, value)), cursor)]
        cursor.bucket <= chunks.len() implies place(
        chunks.update(bucket, chunks[bucket].update(entry, value)),
        cursor,
    ) == place(chunks, cursor) by {
        let after = chunks.update(bucket, chunks[bucket].update(entry, value));
        lemma_offset_same_lengths(chunks, after, cursor.bucket as int);
    }
}

} // verus!
