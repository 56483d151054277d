//! Exact integer arithmetic for geometric bucket sizing.
//!
//! A growth rate is a fraction `num / den` with `num >= den >= 1`. The total
//! capacity of the first `count` buckets is the floor of
//! `start * (1 + r + r^2 + ... + r^(count-1))` with `r = num / den`. To stay in
//! the integers, the sum is kept scaled by `den^count`.
//!
//! The scaled sum outgrows every machine integer long before the total
//! does. What is computed with holds the sum as its integer part and the
//! digits of its fraction in base `den`, one more digit with each term: see
//! `tracks`.

use vstd::prelude::*;

verus! {

/// `base` to the power `exp`.
pub open spec fn power(base: int, exp: nat) -> int
    decreases exp,
{
    if exp == 0 {
        1
    } else {
        base * power(base, (exp - 1) as nat)
    }
}

/// The parameters describe a growth rule: a first bucket that holds at least
/// one element and a rate `num / den` that is at least one.
pub open spec fn valid_growth(start: int, num: int, den: int) -> bool {
    &&& 1 <= start
    &&& 1 <= den
    &&& den <= num
}

/// `start * (den^count + num * den^(count-1) + ... + num^(count-1) * den)`:
/// the geometric sum of `count` terms, multiplied by `den^count`.
pub open spec fn scaled_total(start: int, num: int, den: int, count: nat) -> int
    decreases count,
{
    if count == 0 {
        0
    } else {
        num * scaled_total(start, num, den, (count - 1) as nat) + start * power(den, count)
    }
}

/// Total capacity of the buckets `0..count`:
/// `floor(start * (1 + r + ... + r^(count-1)))` for `r = num / den`.
pub open spec fn total(start: int, num: int, den: int, count: nat) -> int {
    scaled_total(start, num, den, count) / power(den, count)
}

/// Capacity of bucket `index`: what the total grows by when that bucket is added.
pub open spec fn capacity(start: int, num: int, den: int, index: nat) -> int {
    total(start, num, den, index + 1) - total(start, num, den, index)
}

/// Sum of the capacities of the buckets `0..count`, added up one by one.
pub open spec fn capacity_sum(start: int, num: int, den: int, count: nat) -> int
    decreases count,
{
    if count == 0 {
        0
    } else {
        capacity_sum(start, num, den, (count - 1) as nat) + capacity(
            start,
            num,
            den,
            (count - 1) as nat,
        )
    }
}

/// First bucket at or after `from` whose end lies beyond `index`.
pub open spec fn bucket_search(start: int, num: int, den: int, index: nat, from: nat) -> nat
    decreases index - from,
{
    if index < total(start, num, den, from + 1) || from >= index {
        from
    } else {
        bucket_search(start, num, den, index, from + 1)
    }
}

/// The bucket that holds the element with global index `index`.
pub open spec fn bucket_of(start: int, num: int, den: int, index: nat) -> nat {
    bucket_search(start, num, den, index, 0)
}

/// Position of the element with global index `index` inside its bucket.
pub open spec fn offset_of(start: int, num: int, den: int, index: nat) -> int {
    index - total(start, num, den, bucket_of(start, num, den, index))
}

/// The total capacity of the first `count` buckets fits a `usize`.
pub open spec fn representable(start: int, num: int, den: int, count: nat) -> bool {
    total(start, num, den, count) <= usize::MAX
}

/// The number that the digits make up in the given base, lowest digit first.
pub open spec fn digits_value(digits: Seq<usize>, base: int) -> int
    decreases digits.len(),
{
    if digits.len() == 0 {
        0
    } else {
        digits_value(digits.drop_last(), base) + digits.last() * power(
            base,
            (digits.len() - 1) as nat,
        )
    }
}

/// Every digit is below the base.
pub open spec fn digits_below(digits: Seq<usize>, base: int) -> bool {
    forall|i: int| 0 <= i < digits.len() ==> #[trigger] digits[i] < base
}

/// `whole` and `digits` hold the geometric sum of `count` terms exactly:
/// `whole` is its integer part and `digits` are the `count` digits of its
/// fraction in base `den`, the lowest first. A sum of whole numbers has no
/// fraction, and no digits are kept for it.
pub open spec fn tracks(
    start: int,
    num: int,
    den: int,
    count: nat,
    whole: int,
    digits: Seq<usize>,
) -> bool {
    &&& digits.len() == if den == 1 {
        0
    } else {
        count
    }
    &&& digits_below(digits, den)
    &&& scaled_total(start, num, den, count) == whole * power(den, count) + digits_value(
        digits,
        den,
    )
}

/// The number of buckets that it takes to hold `len` elements.
pub open spec fn buckets_for(start: int, num: int, den: int, len: nat) -> nat {
    if len == 0 {
        0
    } else {
        bucket_of(start, num, den, (len - 1) as nat) + 1
    }
}

pub proof fn lemma_power_positive(base: int, exp: nat)
    requires
        1 <= base,
    ensures
        1 <= power(base, exp),
    decreases exp,
{
    if exp > 0 {
        lemma_power_positive(base, (exp - 1) as nat);
        assert(1 <= base * power(base, (exp - 1) as nat)) by (nonlinear_arith)
            requires
                1 <= base,
                1 <= power(base, (exp - 1) as nat),
        ;
    }
}

/// Every power of one is one.
pub proof fn lemma_power_of_one(exp: nat)
    ensures
        power(1, exp) == 1,
    decreases exp,
{
    if exp > 0 {
        lemma_power_of_one((exp - 1) as nat);
    }
}

/// The scaled total is never negative and, from the first bucket on, at
/// least `start * den^count`.
pub proof fn lemma_scaled_total_lower(start: int, num: int, den: int, count: nat)
    requires
        valid_growth(start, num, den),
    ensures
        0 <= scaled_total(start, num, den, count),
        count > 0 ==> start * power(den, count) <= scaled_total(start, num, den, count),
        count > 0 ==> power(den, count) <= scaled_total(start, num, den, count),
    decreases count,
{
    if count > 0 {
        let prev = scaled_total(start, num, den, (count - 1) as nat);
        let d = power(den, count);
        lemma_scaled_total_lower(start, num, den, (count - 1) as nat);
        lemma_power_positive(den, count);
        assert(0 <= num * prev) by (nonlinear_arith)
            requires
                0 <= prev,
                1 <= num,
        ;
        assert(d <= start * d) by (nonlinear_arith)
            requires
                1 <= start,
                1 <= d,
        ;
    }
}

/// Every bucket holds at least `start` elements: the total grows by at
/// least that much with each bucket.
pub proof fn lemma_total_step(start: int, num: int, den: int, count: nat)
    requires
        valid_growth(start, num, den),
    ensures
        0 <= total(start, num, den, count),
        total(start, num, den, count) + start <= total(start, num, den, count + 1),
        start <= capacity(start, num, den, count),
{
    let v = scaled_total(start, num, den, count);
    let v1 = scaled_total(start, num, den, count + 1);
    let d = power(den, count);
    let d1 = power(den, count + 1);
    lemma_scaled_total_lower(start, num, den, count);
    lemma_power_positive(den, count);
    lemma_power_positive(den, count + 1);
    assert(d1 == den * d);
    let t = v / d;
    let r = v % d;
    assert(v == d * t + r && 0 <= r < d && 0 <= t) by (nonlinear_arith)
        requires
            0 <= v,
            1 <= d,
            t == v / d,
            r == v % d,
    ;
    // den * v + start * d1 == d1 * (t + start) + den * r, with den * r < d1
    let low = den * v + start * d1;
    assert(low <= v1) by (nonlinear_arith)
        requires
            v1 == num * v + start * d1,
            den <= num,
            0 <= v,
            low == den * v + start * d1,
    ;
    assert(low == d1 * (t + start) + den * r) by (nonlinear_arith)
        requires
            low == den * v + start * d1,
            v == d * t + r,
            d1 == den * d,
    ;
    assert(0 <= den * r) by (nonlinear_arith)
        requires
            1 <= den,
            0 <= r,
    ;
    assert(d1 * (t + start) <= low);
    assert((t + start) <= v1 / d1) by (nonlinear_arith)
        requires
            d1 * (t + start) <= v1,
            1 <= d1,
    ;
}

/// The total capacity grows strictly with the number of buckets.
pub proof fn lemma_total_monotonic(start: int, num: int, den: int, lo: nat, hi: nat)
    requires
        valid_growth(start, num, den),
        lo <= hi,
    ensures
        0 <= total(start, num, den, lo),
        total(start, num, den, lo) + (hi - lo) <= total(start, num, den, hi),
    decreases hi - lo,
{
    lemma_total_step(start, num, den, lo);
    if lo < hi {
        lemma_total_monotonic(start, num, den, lo, (hi - 1) as nat);
        lemma_total_step(start, num, den, (hi - 1) as nat);
    }
}

/// No bucket precedes the first one.
pub proof fn lemma_total_zero(start: int, num: int, den: int)
    ensures
        total(start, num, den, 0) == 0,
{
    assert(power(den, 0) == 1);
    assert(scaled_total(start, num, den, 0) == 0);
}

/// The first bucket holds exactly `start` elements.
pub proof fn lemma_total_one(start: int, num: int, den: int)
    requires
        valid_growth(start, num, den),
    ensures
        total(start, num, den, 1) == start,
        capacity(start, num, den, 0) == start,
{
    lemma_total_zero(start, num, den);
    assert(power(den, 1) == den) by {
        assert(power(den, 0) == 1);
        assert(power(den, 1) == den * power(den, 0));
    }
    assert(scaled_total(start, num, den, 1) == num * scaled_total(start, num, den, 0) + start
        * power(den, 1));
    assert(scaled_total(start, num, den, 0) == 0);
    assert(num * 0 == 0);
    assert((start * den) / den == start) by (nonlinear_arith)
        requires
            1 <= den,
    ;
}

/// With a growth rate of one, every bucket has the starting capacity.
pub proof fn lemma_total_constant_rate(start: int, den: int, count: nat)
    requires
        valid_growth(start, den, den),
    ensures
        scaled_total(start, den, den, count) == (start * count) * power(den, count),
        total(start, den, den, count) == start * count,
        capacity(start, den, den, count) == start,
    decreases count,
{
    lemma_power_positive(den, count);
    let d = power(den, count);
    if count > 0 {
        let c = (count - 1) as nat;
        lemma_total_constant_rate(start, den, c);
        let dp = power(den, c);
        let vp = scaled_total(start, den, den, c);
        assert(den * vp + start * d == (start * count) * d) by (nonlinear_arith)
            requires
                vp == (start * c) * dp,
                d == den * dp,
                count == c + 1,
        ;
    } else {
        assert((start * 0) * d == 0) by (nonlinear_arith);
    }
    assert(((start * count) * d) / d == start * count) by (nonlinear_arith)
        requires
            1 <= d,
    ;
    if count == 0 {
        lemma_total_one(start, den, den);
    } else {
        lemma_total_constant_rate_next(start, den, count);
    }
}

proof fn lemma_total_constant_rate_next(start: int, den: int, count: nat)
    requires
        valid_growth(start, den, den),
        scaled_total(start, den, den, count) == (start * count) * power(den, count),
        total(start, den, den, count) == start * count,
    ensures
        total(start, den, den, count + 1) == start * (count + 1),
        capacity(start, den, den, count) == start,
{
    lemma_power_positive(den, count + 1);
    let d = power(den, count);
    let d1 = power(den, count + 1);
    let v = scaled_total(start, den, den, count);
    assert(den * v + start * d1 == (start * (count + 1)) * d1) by (nonlinear_arith)
        requires
            v == (start * count) * d,
            d1 == den * d,
    ;
    assert(((start * (count + 1)) * d1) / d1 == start * (count + 1)) by (nonlinear_arith)
        requires
            1 <= d1,
    ;
    assert(start * (count + 1) - start * count == start) by (nonlinear_arith);
}

/// The scaled total in closed form: multiplied by `num - den` it is
/// `start * den * (num^count - den^count)`.
pub proof fn lemma_scaled_total_closed_form(start: int, num: int, den: int, count: nat)
    ensures
        (num - den) * scaled_total(start, num, den, count) == start * den * (power(num, count)
            - power(den, count)),
    decreases count,
{
    if count == 0 {
        assert(power(num, 0) == 1 && power(den, 0) == 1);
        assert((num - den) * 0 == 0);
        assert(start * den * (1 - 1) == 0) by (nonlinear_arith);
    } else {
        let c = (count - 1) as nat;
        lemma_scaled_total_closed_form(start, num, den, c);
        let vp = scaled_total(start, num, den, c);
        let v = scaled_total(start, num, den, count);
        let pn = power(num, c);
        let pd = power(den, c);
        let k = start * den;
        let a = (num - den) * vp;
        let b = (num - den) * (start * (den * pd));
        assert((num - den) * v == num * a + b) by (nonlinear_arith)
            requires
                v == num * vp + start * (den * pd),
                a == (num - den) * vp,
                b == (num - den) * (start * (den * pd)),
        ;
        assert(num * a == k * (num * pn) - k * (num * pd)) by (nonlinear_arith)
            requires
                a == k * (pn - pd),
        ;
        assert(b == k * (num * pd) - k * (den * pd)) by (nonlinear_arith)
            requires
                b == (num - den) * (start * (den * pd)),
                k == start * den,
        ;
        assert(k * (num * pn) - k * (den * pd) == k * (num * pn - den * pd)) by (nonlinear_arith);
    }
}

/// For a growth rate `r = num / den` above one, the total capacity is
/// `floor(start * (r^count - 1) / (r - 1))`, here with numerator and
/// denominator both multiplied by `den^count * den`.
pub proof fn lemma_total_closed_form(start: int, num: int, den: int, count: nat)
    requires
        valid_growth(start, num, den),
        den < num,
    ensures
        0 < (num - den) * power(den, count),
        total(start, num, den, count) == (start * den * (power(num, count) - power(den, count)))
            / ((num - den) * power(den, count)),
{
    let v = scaled_total(start, num, den, count);
    let d = power(den, count);
    lemma_scaled_total_closed_form(start, num, den, count);
    lemma_scaled_total_lower(start, num, den, count);
    lemma_power_positive(den, count);
    vstd::arithmetic::div_mod::lemma_div_multiples_vanish_quotient(num - den, v, d);
}

/// Adding up the capacities of the first `count` buckets gives their total capacity.
pub proof fn lemma_capacity_sum_is_total(start: int, num: int, den: int, count: nat)
    ensures
        capacity_sum(start, num, den, count) == total(start, num, den, count),
    decreases count,
{
    if count == 0 {
        lemma_total_zero(start, num, den);
    } else {
        lemma_capacity_sum_is_total(start, num, den, (count - 1) as nat);
    }
}

proof fn lemma_bucket_search(start: int, num: int, den: int, index: nat, from: nat)
    requires
        valid_growth(start, num, den),
        total(start, num, den, from) <= index,
    ensures
        from <= bucket_search(start, num, den, index, from),
        total(start, num, den, bucket_search(start, num, den, index, from)) <= index,
        index < total(start, num, den, bucket_search(start, num, den, index, from) + 1),
    decreases index - from,
{
    lemma_total_zero(start, num, den);
    lemma_total_monotonic(start, num, den, 0, from + 1);
    if index < total(start, num, den, from + 1) || from >= index {
    } else {
        lemma_bucket_search(start, num, den, index, from + 1);
    }
}

/// The element with global index `index` lies inside the bucket that
/// `bucket_of` names: at or after that bucket's start and before its end.
pub proof fn lemma_bucket_of_bounds(start: int, num: int, den: int, index: nat)
    requires
        valid_growth(start, num, den),
    ensures
        total(start, num, den, bucket_of(start, num, den, index)) <= index,
        index < total(start, num, den, bucket_of(start, num, den, index) + 1),
        0 <= offset_of(start, num, den, index) < capacity(
            start,
            num,
            den,
            bucket_of(start, num, den, index),
        ),
{
    lemma_total_zero(start, num, den);
    lemma_bucket_search(start, num, den, index, 0);
}

/// Only one bucket's range contains a given global index.
pub proof fn lemma_bucket_of_unique(start: int, num: int, den: int, index: nat, bucket: nat)
    requires
        valid_growth(start, num, den),
        total(start, num, den, bucket) <= index,
        index < total(start, num, den, bucket + 1),
    ensures
        bucket_of(start, num, den, index) == bucket,
{
    let found = bucket_of(start, num, den, index);
    lemma_bucket_of_bounds(start, num, den, index);
    if found < bucket {
        lemma_total_monotonic(start, num, den, found + 1, bucket);
    } else if bucket < found {
        lemma_total_monotonic(start, num, den, bucket + 1, found);
    }
}

/// An index below the total capacity of the first `count` buckets lies in
/// one of them.
pub proof fn lemma_bucket_of_below(start: int, num: int, den: int, index: nat, count: nat)
    requires
        valid_growth(start, num, den),
        index < total(start, num, den, count),
    ensures
        bucket_of(start, num, den, index) < count,
{
    let found = bucket_of(start, num, den, index);
    lemma_bucket_of_bounds(start, num, den, index);
    if found >= count {
        lemma_total_monotonic(start, num, den, count, found);
    }
}

/// With a growth rate of one, an index splits into bucket and offset by
/// division by the starting capacity.
pub proof fn lemma_bucket_of_constant_rate(start: int, den: int, index: nat)
    requires
        valid_growth(start, den, den),
    ensures
        bucket_of(start, den, den, index) == index as int / start,
        offset_of(start, den, den, index) == index as int % start,
{
    let b = index as int / start;
    let o = index as int % start;
    assert(index == start * b + o && 0 <= o < start && 0 <= b) by (nonlinear_arith)
        requires
            0 <= index,
            1 <= start,
            b == index as int / start,
            o == index as int % start,
    ;
    lemma_total_constant_rate(start, den, b as nat);
    lemma_total_constant_rate(start, den, (b + 1) as nat);
    assert(start * (b + 1) == start * b + start) by (nonlinear_arith);
    lemma_bucket_of_unique(start, den, den, index, b as nat);
}

/// Digits below the base make up a number below the base to the power of
/// their count.
pub proof fn lemma_digits_bound(digits: Seq<usize>, base: int)
    requires
        1 <= base,
        digits_below(digits, base),
    ensures
        0 <= digits_value(digits, base) < power(base, digits.len()),
    decreases digits.len(),
{
    if digits.len() > 0 {
        let rest = digits.drop_last();
        let top = digits.last() as int;
        let unit = power(base, (digits.len() - 1) as nat);
        assert(digits_below(rest, base)) by {
            assert forall|i: int| 0 <= i < rest.len() implies #[trigger] rest[i] < base by {
                assert(rest[i] == digits[i]);
            }
        }
        lemma_digits_bound(rest, base);
        lemma_power_positive(base, (digits.len() - 1) as nat);
        assert(digits[digits.len() - 1] < base);
        assert(0 <= top * unit && digits_value(rest, base) + top * unit < base * unit)
            by (nonlinear_arith)
            requires
                0 <= top < base,
                1 <= unit,
                0 <= digits_value(rest, base) < unit,
        ;
    }
}

/// What tracks the geometric sum has the total capacity as its integer
/// part.
pub proof fn lemma_tracks_total(
    start: int,
    num: int,
    den: int,
    count: nat,
    whole: int,
    digits: Seq<usize>,
)
    requires
        valid_growth(start, num, den),
        tracks(start, num, den, count, whole, digits),
    ensures
        whole == total(start, num, den, count),
{
    lemma_digits_bound(digits, den);
    lemma_power_positive(den, count);
    if den == 1 {
        lemma_power_of_one(count);
    }
    vstd::arithmetic::div_mod::lemma_fundamental_div_mod_converse(
        scaled_total(start, num, den, count),
        power(den, count),
        whole,
        digits_value(digits, den),
    );
}

/// Nothing tracks the geometric sum of no terms.
pub proof fn lemma_tracks_nothing(start: int, num: int, den: int)
    ensures
        tracks(start, num, den, 0, 0, Seq::<usize>::empty()),
{
    assert(power(den, 0) == 1);
}

/// One more term: if the digits, multiplied by the numerator, give `scaled`
/// and the carry `carry`, then the next integer part is `start` plus the
/// quotient of `num * whole + carry` by the denominator, and the remainder
/// is the next digit.
pub proof fn lemma_tracks_step(
    start: int,
    num: int,
    den: int,
    count: nat,
    whole: int,
    digits: Seq<usize>,
    scaled: Seq<usize>,
    carry: int,
    top: usize,
    quotient: int,
)
    requires
        valid_growth(start, num, den),
        den != 1,
        tracks(start, num, den, count, whole, digits),
        scaled.len() == count,
        digits_below(scaled, den),
        num * digits_value(digits, den) == digits_value(scaled, den) + carry * power(den, count),
        num * whole + carry == quotient * den + top,
        top < den,
    ensures
        tracks(start, num, den, count + 1, start + quotient, scaled.push(top)),
{
    let after = scaled.push(top);
    let unit = power(den, count);
    let old_value = digits_value(digits, den);
    let new_value = digits_value(scaled, den);
    assert(after.drop_last() =~= scaled);
    assert(after.last() == top);
    assert(digits_below(after, den)) by {
        assert forall|i: int| 0 <= i < after.len() implies #[trigger] after[i] < den by {
            if i < scaled.len() {
                assert(after[i] == scaled[i]);
            }
        }
    }
    assert(power(den, count + 1) == den * unit);
    let before = scaled_total(start, num, den, count);
    let times = num * whole;
    let wide = den * unit;
    assert(num * before == times * unit + num * old_value) by (nonlinear_arith)
        requires
            before == whole * unit + old_value,
            times == num * whole,
    ;
    assert(times * unit + carry * unit == (times + carry) * unit) by (nonlinear_arith);
    assert((quotient * den + top) * unit == quotient * wide + top * unit) by (nonlinear_arith)
        requires
            wide == den * unit,
    ;
    assert(quotient * wide + start * wide == (start + quotient) * wide) by (nonlinear_arith);
    assert(num * before + start * wide == (start + quotient) * wide + (new_value + top * unit));
}

/// One more term of a sum of whole numbers: the next sum is `start` plus
/// `num` times the sum so far.
pub proof fn lemma_tracks_step_whole(start: int, num: int, count: nat, whole: int)
    requires
        valid_growth(start, num, 1),
        tracks(start, num, 1, count, whole, Seq::<usize>::empty()),
    ensures
        tracks(start, num, 1, count + 1, start + num * whole, Seq::<usize>::empty()),
{
    lemma_power_of_one(count);
    lemma_power_of_one(count + 1);
    let before = scaled_total(start, num, 1, count);
    assert(num * before + start * 1 == (start + num * whole) * 1 + 0) by (nonlinear_arith)
        requires
            before == whole * 1 + 0,
    ;
}

/// What fits for some number of buckets fits for any smaller number.
pub proof fn lemma_representable_below(start: int, num: int, den: int, lo: nat, hi: nat)
    requires
        valid_growth(start, num, den),
        lo <= hi,
        representable(start, num, den, hi),
    ensures
        representable(start, num, den, lo),
{
    lemma_total_monotonic(start, num, den, lo, hi);
}

/// `buckets_for` names the least number of buckets whose total capacity
/// reaches `len`.
pub proof fn lemma_buckets_for_bounds(start: int, num: int, den: int, len: nat)
    requires
        valid_growth(start, num, den),
    ensures
        len <= total(start, num, den, buckets_for(start, num, den, len)),
        len > 0 ==> buckets_for(start, num, den, len) > 0 && total(
            start,
            num,
            den,
            (buckets_for(start, num, den, len) - 1) as nat,
        ) < len,
        buckets_for(start, num, den, len) <= len,
{
    lemma_total_zero(start, num, den);
    if len > 0 {
        lemma_bucket_of_bounds(start, num, den, (len - 1) as nat);
        lemma_total_monotonic(start, num, den, 0, bucket_of(start, num, den, (len - 1) as nat));
    }
}

/// A number of buckets whose total capacity reaches `len`, while one bucket
/// less falls short of it, is the number that `buckets_for` names.
pub proof fn lemma_buckets_for_unique(start: int, num: int, den: int, len: nat, count: nat)
    requires
        valid_growth(start, num, den),
        len <= total(start, num, den, count),
        count > 0 ==> total(start, num, den, (count - 1) as nat) < len,
    ensures
        buckets_for(start, num, den, len) == count,
{
    lemma_total_zero(start, num, den);
    if count == 0 {
    } else {
        lemma_total_step(start, num, den, (count - 1) as nat);
        assert((count - 1) as nat + 1 == count);
        lemma_bucket_of_unique(start, num, den, (len - 1) as nat, (count - 1) as nat);
    }
}

/// More elements never take fewer buckets.
pub proof fn lemma_buckets_for_monotonic(start: int, num: int, den: int, lo: nat, hi: nat)
    requires
        valid_growth(start, num, den),
        lo <= hi,
    ensures
        buckets_for(start, num, den, lo) <= buckets_for(start, num, den, hi),
{
    let a = buckets_for(start, num, den, lo);
    let b = buckets_for(start, num, den, hi);
    lemma_buckets_for_bounds(start, num, den, lo);
    lemma_buckets_for_bounds(start, num, den, hi);
    if b < a {
        lemma_total_monotonic(start, num, den, b, (a - 1) as nat);
    }
}

} // verus!
