//! Growth configuration of a bucket vector and the capacity arithmetic
//! that follows from it.

use crate::math::{
    bucket_of, buckets_for, capacity, capacity_sum, digits_below, digits_value,
    lemma_bucket_of_below, lemma_bucket_of_bounds, lemma_bucket_of_constant_rate,
    lemma_bucket_of_unique, lemma_buckets_for_bounds, lemma_buckets_for_monotonic,
    lemma_buckets_for_unique, lemma_capacity_sum_is_total, lemma_digits_bound,
    lemma_power_of_one,
    lemma_representable_below, lemma_scaled_total_closed_form, lemma_total_closed_form,
    lemma_total_constant_rate, lemma_total_monotonic, lemma_total_step, lemma_total_zero,
    lemma_tracks_nothing, lemma_tracks_step, lemma_tracks_step_whole, lemma_tracks_total, offset_of, power,
    representable, total, tracks, valid_growth,
};
use vstd::prelude::*;

verus! {

/// Basic configs of a bucket vector.
///
/// The growth rate is the fraction `GROWTH_NUMERATOR / GROWTH_DENOMINATOR`.
pub trait BucketVecConfig {
    /// The capacity of the first bucket of the bucket vector.
    ///
    /// This value must be larger than or equal to `1`.
    const STARTING_CAPACITY: usize;

    /// Numerator of the rate with which the buckets grow in capacity.
    ///
    /// The rate must be larger than or equal to `1`: the numerator is at
    /// least the denominator. A rate of `1` renders all buckets equally sized.
    const GROWTH_NUMERATOR: usize;

    /// Denominator of the growth rate. This value must be larger than or
    /// equal to `1`.
    const GROWTH_DENOMINATOR: usize;
}

/// The default configuration for bucket vectors: the first bucket has a
/// capacity of 4 and each further bucket doubles in capacity.
#[derive(Debug, Clone, Copy, PartialEq, Eq, PartialOrd, Ord, Hash)]
pub enum DefaultConfig {
    /// The only value of the marker.
    Doubling,
}

impl BucketVecConfig for DefaultConfig {
    const STARTING_CAPACITY: usize = 4;

    const GROWTH_NUMERATOR: usize = 2;

    const GROWTH_DENOMINATOR: usize = 1;
}

/// The configuration obeys what `BucketVecConfig` asks of its constants.
pub open spec fn valid_config<C: BucketVecConfig>() -> bool {
    valid_growth(
        C::STARTING_CAPACITY as int,
        C::GROWTH_NUMERATOR as int,
        C::GROWTH_DENOMINATOR as int,
    )
}

/// The total capacity of the buckets before bucket `index`.
pub open spec fn spec_total_capacity<C: BucketVecConfig>(index: nat) -> int {
    total(
        C::STARTING_CAPACITY as int,
        C::GROWTH_NUMERATOR as int,
        C::GROWTH_DENOMINATOR as int,
        index,
    )
}

/// The capacity of bucket `index`.
pub open spec fn spec_bucket_capacity<C: BucketVecConfig>(index: nat) -> int {
    capacity(
        C::STARTING_CAPACITY as int,
        C::GROWTH_NUMERATOR as int,
        C::GROWTH_DENOMINATOR as int,
        index,
    )
}

/// The capacities of the buckets before bucket `count`, added up.
pub open spec fn spec_capacity_sum<C: BucketVecConfig>(count: nat) -> int {
    capacity_sum(
        C::STARTING_CAPACITY as int,
        C::GROWTH_NUMERATOR as int,
        C::GROWTH_DENOMINATOR as int,
        count,
    )
}

/// The bucket index and the entry index inside that bucket of the element
/// with the given index.
pub open spec fn spec_bucket_entry_indices<C: BucketVecConfig>(index: nat) -> (int, int) {
    (
        bucket_of(
            C::STARTING_CAPACITY as int,
            C::GROWTH_NUMERATOR as int,
            C::GROWTH_DENOMINATOR as int,
            index,
        ) as int,
        offset_of(
            C::STARTING_CAPACITY as int,
            C::GROWTH_NUMERATOR as int,
            C::GROWTH_DENOMINATOR as int,
            index,
        ),
    )
}

/// The total capacity of the first `count` buckets fits a `usize`.
pub open spec fn spec_representable<C: BucketVecConfig>(count: nat) -> bool {
    representable(
        C::STARTING_CAPACITY as int,
        C::GROWTH_NUMERATOR as int,
        C::GROWTH_DENOMINATOR as int,
        count,
    )
}

/// The number of buckets that a bucket vector of `len` elements is made of.
pub open spec fn spec_bucket_count<C: BucketVecConfig>(len: nat) -> nat {
    buckets_for(
        C::STARTING_CAPACITY as int,
        C::GROWTH_NUMERATOR as int,
        C::GROWTH_DENOMINATOR as int,
        len,
    )
}

/// A bucket vector of this configuration can hold `len` elements: the total
/// capacity of the buckets that it takes fits a `usize`.
pub open spec fn spec_supports<C: BucketVecConfig>(len: nat) -> bool {
    spec_representable::<C>(spec_bucket_count::<C>(len))
}

/// Tells whether the configuration obeys what `BucketVecConfig` asks of its
/// constants.
pub fn is_valid_config<C: BucketVecConfig>() -> (valid: bool)
    ensures
        valid == valid_config::<C>(),
{
    1 <= C::STARTING_CAPACITY && 1 <= C::GROWTH_DENOMINATOR && C::GROWTH_DENOMINATOR
        <= C::GROWTH_NUMERATOR
}

/// Tells whether the total capacity of the first `count` buckets fits a
/// `usize`.
pub fn is_representable<C: BucketVecConfig>(count: usize) -> (fits: bool)
    requires
        valid_config::<C>(),
    ensures
        fits == spec_representable::<C>(count as nat),
{
    let start: usize = C::STARTING_CAPACITY;
    if C::GROWTH_NUMERATOR == C::GROWTH_DENOMINATOR {
        proof {
            lemma_total_constant_rate(
                start as int,
                C::GROWTH_DENOMINATOR as int,
                count as nat,
            );
        }
        return start.checked_mul(count).is_some();
    }
    let mut whole: usize = 0;
    let mut digits: Vec<usize> = Vec::new();
    let mut done: usize = 0;
    proof {
        lemma_tracks_nothing(
            C::STARTING_CAPACITY as int,
            C::GROWTH_NUMERATOR as int,
            C::GROWTH_DENOMINATOR as int,
        );
    }
    while done < count
        invariant
            valid_config::<C>(),
            done <= count,
            tracks(
                C::STARTING_CAPACITY as int,
                C::GROWTH_NUMERATOR as int,
                C::GROWTH_DENOMINATOR as int,
                done as nat,
                whole as int,
                digits@,
            ),
        decreases count - done,
    {
        let next = grow_total::<C>(whole, &mut digits, Ghost(done as nat));
        if next > usize::MAX as u128 {
            proof {
                lemma_total_monotonic(
                    C::STARTING_CAPACITY as int,
                    C::GROWTH_NUMERATOR as int,
                    C::GROWTH_DENOMINATOR as int,
                    (done + 1) as nat,
                    count as nat,
                );
            }
            return false;
        }
        whole = next as usize;
        done = done + 1;
    }
    proof {
        lemma_tracks_total(
            C::STARTING_CAPACITY as int,
            C::GROWTH_NUMERATOR as int,
            C::GROWTH_DENOMINATOR as int,
            count as nat,
            whole as int,
            digits@,
        );
    }
    true
}

/// Multiplies the number that the digits make up in the base of the
/// denominator by the numerator, in place, and returns what is carried out
/// of the highest digit.
fn scale_digits<C: BucketVecConfig>(digits: &mut Vec<usize>) -> (carry: usize)
    requires
        valid_config::<C>(),
        digits_below(old(digits)@, C::GROWTH_DENOMINATOR as int),
    ensures
        final(digits)@.len() == old(digits)@.len(),
        digits_below(final(digits)@, C::GROWTH_DENOMINATOR as int),
        C::GROWTH_NUMERATOR * digits_value(old(digits)@, C::GROWTH_DENOMINATOR as int)
            == digits_value(final(digits)@, C::GROWTH_DENOMINATOR as int) + carry * power(
            C::GROWTH_DENOMINATOR as int,
            old(digits)@.len(),
        ),
        carry < C::GROWTH_NUMERATOR,
{
    let num: u128 = C::GROWTH_NUMERATOR as u128;
    let den: u128 = C::GROWTH_DENOMINATOR as u128;
    let ghost before = digits@;
    let mut carry: u128 = 0;
    let mut place: usize = 0;
    proof {
        assert(before.take(0) =~= Seq::<usize>::empty());
        assert(power(den as int, 0) == 1);
    }
    while place < digits.len()
        invariant
            valid_config::<C>(),
            num == C::GROWTH_NUMERATOR,
            den == C::GROWTH_DENOMINATOR,
            digits@.len() == before.len(),
            place <= before.len(),
            carry < num,
            digits_below(before, den as int),
            digits_below(digits@, den as int),
            forall|i: int| place <= i < before.len() ==> digits@[i] == before[i],
            num * digits_value(before.take(place as int), den as int) == digits_value(
                digits@.take(place as int),
                den as int,
            ) + carry * power(den as int, place as nat),
        decreases before.len() - place,
    {
        let digit: u128 = digits[place] as u128;
        assert(digit < den);
        assert(digit * num + carry < den * num && den * num <= u128::MAX) by (nonlinear_arith)
            requires
                0 <= digit < den,
                0 <= carry < num,
                den <= 0xffff_ffff_ffff_ffff,
                num <= 0xffff_ffff_ffff_ffff,
        ;
        let product: u128 = digit * num + carry;
        let low: usize = (product % den) as usize;
        let high: u128 = product / den;
        let ghost scaled = digits@;
        digits.set(place, low);
        proof {
            let unit = power(den as int, place as nat);
            let done_before = before.take(place as int);
            let done_after = scaled.take(place as int);
            assert(before.take(place + 1).drop_last() =~= done_before);
            assert(before.take(place + 1).last() == before[place as int]);
            assert(digits@.take(place + 1).drop_last() =~= done_after);
            assert(digits@.take(place + 1).last() == low);
            assert(high < num) by (nonlinear_arith)
                requires
                    product < den * num,
                    high == product / den,
                    1 <= den,
            ;
            assert(product == high * den + low) by (nonlinear_arith)
                requires
                    high == product / den,
                    low == product % den,
                    1 <= den,
            ;
            assert(power(den as int, (place + 1) as nat) == den * unit);
            let value_before = digits_value(done_before, den as int);
            let value_after = digits_value(done_after, den as int);
            let times = digit * num;
            assert(num * (value_before + digit * unit) == num * value_before + times * unit)
                by (nonlinear_arith)
                requires
                    times == digit * num,
            ;
            assert((times + carry) * unit == times * unit + carry * unit) by (nonlinear_arith);
            assert((high * den + low) * unit == high * (den * unit) + low * unit)
                by (nonlinear_arith);
            assert(num * (value_before + digit * unit) == value_after + low * unit + high * (den
                * unit));
            assert forall|i: int| 0 <= i < digits@.len() implies #[trigger] digits@[i]
                < den as int by {
                if i != place {
                    assert(digits@[i] == scaled[i]);
                }
            }
        }
        carry = high;
        place = place + 1;
    }
    proof {
        assert(before.take(place as int) =~= before);
        assert(digits@.take(place as int) =~= digits@);
    }
    carry as usize
}

/// One more bucket: from what tracks the geometric sum of `count` terms to
/// what tracks that of `count + 1` terms. Returns the total capacity of the
/// first `count + 1` buckets, which may be more than a `usize` holds.
fn grow_total<C: BucketVecConfig>(
    whole: usize,
    digits: &mut Vec<usize>,
    Ghost(count): Ghost<nat>,
) -> (next: u128)
    requires
        valid_config::<C>(),
        tracks(
            C::STARTING_CAPACITY as int,
            C::GROWTH_NUMERATOR as int,
            C::GROWTH_DENOMINATOR as int,
            count,
            whole as int,
            old(digits)@,
        ),
    ensures
        tracks(
            C::STARTING_CAPACITY as int,
            C::GROWTH_NUMERATOR as int,
            C::GROWTH_DENOMINATOR as int,
            count + 1,
            next as int,
            final(digits)@,
        ),
        next == spec_total_capacity::<C>(count + 1),
{
    let start: u128 = C::STARTING_CAPACITY as u128;
    let num: u128 = C::GROWTH_NUMERATOR as u128;
    let den: u128 = C::GROWTH_DENOMINATOR as u128;
    if C::GROWTH_DENOMINATOR == 1 {
        proof {
            assert(digits@ =~= Seq::<usize>::empty());
            lemma_tracks_step_whole(start as int, num as int, count, whole as int);
            lemma_tracks_total(
                start as int,
                num as int,
                1,
                count + 1,
                start + num * whole,
                digits@,
            );
        }
        assert(start + num * (whole as u128) <= 0xffff_ffff_ffff_ffff_ffff_ffff_ffff_ffff)
            by (nonlinear_arith)
            requires
                0 <= start <= 0xffff_ffff_ffff_ffff,
                0 <= num <= 0xffff_ffff_ffff_ffff,
                0 <= whole <= 0xffff_ffff_ffff_ffff,
        ;
        return start + num * (whole as u128);
    }
    let ghost before = digits@;
    let carry: u128 = scale_digits::<C>(digits) as u128;
    let ghost scaled = digits@;
    assert(num * (whole as u128) + carry <= 0xffff_ffff_ffff_ffff_ffff_ffff_ffff_ffff
        - 0xffff_ffff_ffff_ffff) by (nonlinear_arith)
        requires
            0 <= num <= 0xffff_ffff_ffff_ffff,
            0 <= whole <= 0xffff_ffff_ffff_ffff,
            0 <= carry < num,
    ;
    let sum: u128 = num * (whole as u128) + carry;
    let top: usize = (sum % den) as usize;
    let quotient: u128 = sum / den;
    assert(sum == quotient * den + top && quotient <= sum) by (nonlinear_arith)
        requires
            quotient == sum / den,
            top == sum % den,
            1 <= den,
            0 <= sum,
    ;
    digits.push(top);
    proof {
        lemma_tracks_step(
            start as int,
            num as int,
            den as int,
            count,
            whole as int,
            before,
            scaled,
            carry as int,
            top,
            quotient as int,
        );
        lemma_tracks_total(
            start as int,
            num as int,
            den as int,
            count + 1,
            start + quotient,
            digits@,
        );
    }
    start + quotient
}

/// Returns the total capacity of all buckets up to (and not including) the
/// bucket indexed by `index`.
pub fn total_capacity<C: BucketVecConfig>(index: usize) -> (capacity: usize)
    requires
        valid_config::<C>(),
        spec_representable::<C>(index as nat),
    ensures
        capacity == spec_total_capacity::<C>(index as nat),
{
    let start: usize = C::STARTING_CAPACITY;
    if C::GROWTH_NUMERATOR == C::GROWTH_DENOMINATOR {
        proof {
            lemma_total_constant_rate(
                start as int,
                C::GROWTH_DENOMINATOR as int,
                index as nat,
            );
        }
        return start * index;
    }
    let mut whole: usize = 0;
    let mut digits: Vec<usize> = Vec::new();
    let mut count: usize = 0;
    proof {
        lemma_tracks_nothing(
            C::STARTING_CAPACITY as int,
            C::GROWTH_NUMERATOR as int,
            C::GROWTH_DENOMINATOR as int,
        );
    }
    while count < index
        invariant
            valid_config::<C>(),
            spec_representable::<C>(index as nat),
            count <= index,
            tracks(
                C::STARTING_CAPACITY as int,
                C::GROWTH_NUMERATOR as int,
                C::GROWTH_DENOMINATOR as int,
                count as nat,
                whole as int,
                digits@,
            ),
        decreases index - count,
    {
        proof {
            lemma_total_monotonic(
                C::STARTING_CAPACITY as int,
                C::GROWTH_NUMERATOR as int,
                C::GROWTH_DENOMINATOR as int,
                (count + 1) as nat,
                index as nat,
            );
        }
        let next = grow_total::<C>(whole, &mut digits, Ghost(count as nat));
        whole = next as usize;
        count = count + 1;
    }
    proof {
        lemma_tracks_total(
            C::STARTING_CAPACITY as int,
            C::GROWTH_NUMERATOR as int,
            C::GROWTH_DENOMINATOR as int,
            index as nat,
            whole as int,
            digits@,
        );
    }
    whole
}

/// Returns the capacity of the indexed bucket.
pub fn bucket_capacity<C: BucketVecConfig>(index: usize) -> (capacity: usize)
    requires
        valid_config::<C>(),
        spec_representable::<C>(index as nat + 1),
    ensures
        capacity == spec_bucket_capacity::<C>(index as nat),
        1 <= capacity,
{
    proof {
        lemma_total_capacity_step::<C>(index as nat);
        lemma_total_capacity_step::<C>(index as nat + 1);
        lemma_representable_fewer::<C>(index as nat, index as nat + 1);
    }
    if C::GROWTH_NUMERATOR == C::GROWTH_DENOMINATOR {
        proof {
            lemma_total_constant_rate(
                C::STARTING_CAPACITY as int,
                C::GROWTH_DENOMINATOR as int,
                index as nat,
            );
        }
        C::STARTING_CAPACITY
    } else {
        let next_total_capacity = total_capacity::<C>(index + 1);
        let total_capacity = total_capacity::<C>(index);
        next_total_capacity - total_capacity
    }
}

/// Returns the bucket index and its internal entry index for the given
/// bucket vector index into an element.
pub fn bucket_entry_indices<C: BucketVecConfig>(index: usize) -> (indices: (usize, usize))
    requires
        valid_config::<C>(),
        spec_representable::<C>((spec_bucket_entry_indices::<C>(index as nat).0 + 1) as nat),
    ensures
        indices.0 == spec_bucket_entry_indices::<C>(index as nat).0,
        indices.1 == spec_bucket_entry_indices::<C>(index as nat).1,
{
    let start: usize = C::STARTING_CAPACITY;
    let ghost target = bucket_of(
        C::STARTING_CAPACITY as int,
        C::GROWTH_NUMERATOR as int,
        C::GROWTH_DENOMINATOR as int,
        index as nat,
    );
    if C::GROWTH_NUMERATOR == C::GROWTH_DENOMINATOR {
        proof {
            lemma_bucket_of_constant_rate(
                start as int,
                C::GROWTH_DENOMINATOR as int,
                index as nat,
            );
        }
        return (index / start, index % start);
    }
    proof {
        lemma_bucket_of_bounds(
            C::STARTING_CAPACITY as int,
            C::GROWTH_NUMERATOR as int,
            C::GROWTH_DENOMINATOR as int,
            index as nat,
        );
        lemma_total_capacity_step::<C>(target);
        lemma_tracks_nothing(
            C::STARTING_CAPACITY as int,
            C::GROWTH_NUMERATOR as int,
            C::GROWTH_DENOMINATOR as int,
        );
    }
    let mut bucket: usize = 0;
    let mut begin: usize = 0;
    let mut digits: Vec<usize> = Vec::new();
    loop
        invariant_except_break
            tracks(
                C::STARTING_CAPACITY as int,
                C::GROWTH_NUMERATOR as int,
                C::GROWTH_DENOMINATOR as int,
                bucket as nat,
                begin as int,
                digits@,
            ),
        invariant
            valid_config::<C>(),
            spec_representable::<C>(target + 1),
            target == spec_bucket_entry_indices::<C>(index as nat).0,
            target <= index,
            bucket <= target,
            begin == spec_total_capacity::<C>(bucket as nat),
            begin <= index,
        ensures
            bucket == target,
            begin == spec_total_capacity::<C>(bucket as nat),
            begin <= index,
        decreases target - bucket,
    {
        proof {
            lemma_total_monotonic(
                C::STARTING_CAPACITY as int,
                C::GROWTH_NUMERATOR as int,
                C::GROWTH_DENOMINATOR as int,
                bucket as nat + 1,
                target + 1,
            );
        }
        let next = grow_total::<C>(begin, &mut digits, Ghost(bucket as nat));
        let end: usize = next as usize;
        if index < end {
            proof {
                lemma_bucket_of_unique(
                    C::STARTING_CAPACITY as int,
                    C::GROWTH_NUMERATOR as int,
                    C::GROWTH_DENOMINATOR as int,
                    index as nat,
                    bucket as nat,
                );
            }
            break ;
        }
        proof {
            lemma_bucket_of_bounds(
                C::STARTING_CAPACITY as int,
                C::GROWTH_NUMERATOR as int,
                C::GROWTH_DENOMINATOR as int,
                index as nat,
            );
            if bucket == target {
                assert(false);
            }
        }
        bucket = bucket + 1;
        begin = end;
    }
    (bucket, index - begin)
}

/// The capacities of the buckets before bucket `count` add up to the total
/// capacity that the closed form gives for them.
pub proof fn lemma_capacities_sum_to_total<C: BucketVecConfig>(count: nat)
    ensures
        spec_capacity_sum::<C>(count) == spec_total_capacity::<C>(count),
{
    lemma_capacity_sum_is_total(
        C::STARTING_CAPACITY as int,
        C::GROWTH_NUMERATOR as int,
        C::GROWTH_DENOMINATOR as int,
        count,
    );
}

/// Every index below the total capacity of the first `count` buckets is
/// located in one of those buckets, at an entry index below that bucket's
/// capacity, and the bucket's start plus the entry index is the index again.
pub proof fn lemma_entry_indices_within<C: BucketVecConfig>(index: nat, count: nat)
    requires
        valid_config::<C>(),
        index < spec_total_capacity::<C>(count),
    ensures
        0 <= spec_bucket_entry_indices::<C>(index).0 < count,
        0 <= spec_bucket_entry_indices::<C>(index).1 < spec_bucket_capacity::<C>(
            spec_bucket_entry_indices::<C>(index).0 as nat,
        ),
        spec_total_capacity::<C>(spec_bucket_entry_indices::<C>(index).0 as nat)
            + spec_bucket_entry_indices::<C>(index).1 == index,
{
    lemma_bucket_of_below(
        C::STARTING_CAPACITY as int,
        C::GROWTH_NUMERATOR as int,
        C::GROWTH_DENOMINATOR as int,
        index,
        count,
    );
    lemma_bucket_of_bounds(
        C::STARTING_CAPACITY as int,
        C::GROWTH_NUMERATOR as int,
        C::GROWTH_DENOMINATOR as int,
        index,
    );
}

/// An index at or after the start of a bucket and before its end is
/// located in that bucket, as far behind its start as the index is.
pub proof fn lemma_entry_indices_found<C: BucketVecConfig>(index: nat, bucket: nat)
    requires
        valid_config::<C>(),
        spec_total_capacity::<C>(bucket) <= index < spec_total_capacity::<C>(bucket + 1),
    ensures
        spec_bucket_entry_indices::<C>(index).0 == bucket,
        spec_bucket_entry_indices::<C>(index).1 == index - spec_total_capacity::<C>(bucket),
{
    lemma_bucket_of_unique(
        C::STARTING_CAPACITY as int,
        C::GROWTH_NUMERATOR as int,
        C::GROWTH_DENOMINATOR as int,
        index,
        bucket,
    );
}

/// No capacity lies before the first bucket, each bucket adds its capacity
/// to the total, and that capacity is at least the starting capacity.
pub proof fn lemma_total_capacity_step<C: BucketVecConfig>(index: nat)
    requires
        valid_config::<C>(),
    ensures
        spec_total_capacity::<C>(0) == 0,
        spec_total_capacity::<C>(index + 1) == spec_total_capacity::<C>(index)
            + spec_bucket_capacity::<C>(index),
        1 <= C::STARTING_CAPACITY <= spec_bucket_capacity::<C>(index),
        index <= spec_total_capacity::<C>(index),
{
    lemma_total_zero(
        C::STARTING_CAPACITY as int,
        C::GROWTH_NUMERATOR as int,
        C::GROWTH_DENOMINATOR as int,
    );
    lemma_total_step(
        C::STARTING_CAPACITY as int,
        C::GROWTH_NUMERATOR as int,
        C::GROWTH_DENOMINATOR as int,
        index,
    );
    lemma_total_monotonic(
        C::STARTING_CAPACITY as int,
        C::GROWTH_NUMERATOR as int,
        C::GROWTH_DENOMINATOR as int,
        0,
        index,
    );
}

/// The number of buckets of a bucket vector is the least whose total
/// capacity reaches its length.
pub proof fn lemma_bucket_count<C: BucketVecConfig>(len: nat, count: nat)
    requires
        valid_config::<C>(),
    ensures
        len <= spec_total_capacity::<C>(spec_bucket_count::<C>(len)),
        len <= spec_total_capacity::<C>(count) && (count > 0 ==> spec_total_capacity::<C>(
            (count - 1) as nat,
        ) < len) ==> spec_bucket_count::<C>(len) == count,
{
    lemma_buckets_for_bounds(
        C::STARTING_CAPACITY as int,
        C::GROWTH_NUMERATOR as int,
        C::GROWTH_DENOMINATOR as int,
        len,
    );
    if len <= spec_total_capacity::<C>(count) && (count > 0 ==> spec_total_capacity::<C>(
        (count - 1) as nat,
    ) < len) {
        lemma_buckets_for_unique(
            C::STARTING_CAPACITY as int,
            C::GROWTH_NUMERATOR as int,
            C::GROWTH_DENOMINATOR as int,
            len,
            count,
        );
    }
}

/// A total capacity that fits a `usize` for some number of buckets fits it
/// for every smaller number.
pub proof fn lemma_representable_fewer<C: BucketVecConfig>(lo: nat, hi: nat)
    requires
        valid_config::<C>(),
        lo <= hi,
        spec_representable::<C>(hi),
    ensures
        spec_representable::<C>(lo),
{
    lemma_representable_below(
        C::STARTING_CAPACITY as int,
        C::GROWTH_NUMERATOR as int,
        C::GROWTH_DENOMINATOR as int,
        lo,
        hi,
    );
}

/// The default configuration starts with a capacity of 4 and doubles it
/// with every bucket, which is a valid configuration.
pub proof fn lemma_default_config()
    ensures
        DefaultConfig::STARTING_CAPACITY == 4,
        DefaultConfig::GROWTH_NUMERATOR == 2,
        DefaultConfig::GROWTH_DENOMINATOR == 1,
        valid_config::<DefaultConfig>(),
{
}

/// The default configuration supports every length up to `2^32 - 4`, the
/// total capacity of its first thirty buckets.
pub proof fn lemma_default_config_supports(len: nat)
    requires
        len <= 0xffff_fffc,
    ensures
        spec_supports::<DefaultConfig>(len),
{
    lemma_default_config();
    lemma_scaled_total_closed_form(4, 2, 1, 30);
    lemma_power_of_one(30);
    assert(power(2, 30) == 0x4000_0000) by {
        reveal_with_fuel(power, 31);
    }
    assert(spec_total_capacity::<DefaultConfig>(30) == 0xffff_fffc);
    let count = spec_bucket_count::<DefaultConfig>(len);
    lemma_bucket_count::<DefaultConfig>(len, count);
    lemma_buckets_for_bounds(4, 2, 1, len);
    if count > 30 {
        lemma_total_monotonic(4, 2, 1, 30, (count - 1) as nat);
    }
    lemma_representable_fewer::<DefaultConfig>(count, 30);
}

/// Every valid configuration supports the empty bucket vector.
pub proof fn lemma_supports_nothing<C: BucketVecConfig>()
    requires
        valid_config::<C>(),
    ensures
        spec_supports::<C>(0),
{
    lemma_total_zero(
        C::STARTING_CAPACITY as int,
        C::GROWTH_NUMERATOR as int,
        C::GROWTH_DENOMINATOR as int,
    );
}

/// A configuration that supports some length supports every smaller one.
pub proof fn lemma_supports_below<C: BucketVecConfig>(lo: nat, hi: nat)
    requires
        valid_config::<C>(),
        lo <= hi,
        spec_supports::<C>(hi),
    ensures
        spec_supports::<C>(lo),
{
    lemma_buckets_for_monotonic(
        C::STARTING_CAPACITY as int,
        C::GROWTH_NUMERATOR as int,
        C::GROWTH_DENOMINATOR as int,
        lo,
        hi,
    );
    lemma_representable_below(
        C::STARTING_CAPACITY as int,
        C::GROWTH_NUMERATOR as int,
        C::GROWTH_DENOMINATOR as int,
        spec_bucket_count::<C>(lo),
        spec_bucket_count::<C>(hi),
    );
}

/// With a growth rate of one, all buckets have the starting capacity, the
/// total capacity before bucket `index` is `index` times that, and an
/// element's bucket and entry index are quotient and remainder of its
/// index by the starting capacity.
pub proof fn lemma_equal_buckets<C: BucketVecConfig>(index: nat)
    requires
        valid_config::<C>(),
        C::GROWTH_NUMERATOR == C::GROWTH_DENOMINATOR,
    ensures
        spec_total_capacity::<C>(index) == C::STARTING_CAPACITY * index,
        spec_bucket_capacity::<C>(index) == C::STARTING_CAPACITY,
        spec_bucket_entry_indices::<C>(index).0 == index as int / (C::STARTING_CAPACITY as int),
        spec_bucket_entry_indices::<C>(index).1 == index as int % (C::STARTING_CAPACITY as int),
{
    lemma_total_constant_rate(C::STARTING_CAPACITY as int, C::GROWTH_DENOMINATOR as int, index);
    lemma_bucket_of_constant_rate(
        C::STARTING_CAPACITY as int,
        C::GROWTH_DENOMINATOR as int,
        index,
    );
}

/// With a growth rate `r` above one, the total capacity before bucket
/// `index` is `floor(start * (r^index - 1) / (r - 1))`, written over the
/// integers with `r = num / den`.
pub proof fn lemma_geometric_total<C: BucketVecConfig>(index: nat)
    requires
        valid_config::<C>(),
        C::GROWTH_NUMERATOR > C::GROWTH_DENOMINATOR,
    ensures
        0 < (C::GROWTH_NUMERATOR - C::GROWTH_DENOMINATOR) * power(
            C::GROWTH_DENOMINATOR as int,
            index,
        ),
        spec_total_capacity::<C>(index) == (C::STARTING_CAPACITY * C::GROWTH_DENOMINATOR * (power(
            C::GROWTH_NUMERATOR as int,
            index,
        ) - power(C::GROWTH_DENOMINATOR as int, index))) / ((C::GROWTH_NUMERATOR
            - C::GROWTH_DENOMINATOR) * power(C::GROWTH_DENOMINATOR as int, index)),
{
    lemma_total_closed_form(
        C::STARTING_CAPACITY as int,
        C::GROWTH_NUMERATOR as int,
        C::GROWTH_DENOMINATOR as int,
        index,
    );
}

} // verus!
