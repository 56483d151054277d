use bucket_vec::{BucketVec, BucketVecConfig};

/// A configuration that starts at 1 and triples.
#[derive(Debug)]
pub enum QuadraticConfig {}

impl BucketVecConfig for QuadraticConfig {
    const STARTING_CAPACITY: usize = 1;
    const GROWTH_NUMERATOR: usize = 3;
    const GROWTH_DENOMINATOR: usize = 1;
}

/// A configuration that starts at 1 and triples.
#[derive(Debug)]
pub enum CubicConfig {}

impl BucketVecConfig for CubicConfig {
    const STARTING_CAPACITY: usize = 1;
    const GROWTH_NUMERATOR: usize = 3;
    const GROWTH_DENOMINATOR: usize = 1;
}

/// A configuration that all buckets hold 4.
#[derive(Debug)]
pub enum EqualSizeConfig {}

impl BucketVecConfig for EqualSizeConfig {
    const STARTING_CAPACITY: usize = 4;
    const GROWTH_NUMERATOR: usize = 1;
    const GROWTH_DENOMINATOR: usize = 1;
}

/// A configuration that all buckets hold 1.
#[derive(Debug)]
pub enum WastefulConfig {}

impl BucketVecConfig for WastefulConfig {
    const STARTING_CAPACITY: usize = 1;
    const GROWTH_NUMERATOR: usize = 1;
    const GROWTH_DENOMINATOR: usize = 1;
}

/// A configuration that starts at 3 and grows by half.
#[derive(Debug)]
pub enum C3G1x5Config {}

impl BucketVecConfig for C3G1x5Config {
    const STARTING_CAPACITY: usize = 3;
    const GROWTH_NUMERATOR: usize = 3;
    const GROWTH_DENOMINATOR: usize = 2;
}

/// A configuration that starts at 3 and grows by 3.14159265.
#[derive(Debug)]
pub enum CrazyPiConfig {}

impl BucketVecConfig for CrazyPiConfig {
    const STARTING_CAPACITY: usize = 3;
    const GROWTH_NUMERATOR: usize = 314159265;
    const GROWTH_DENOMINATOR: usize = 100000000;
}

fn small_test_values() -> Vec<i32> {
    vec![5, 42, 1337, -1, 0, 7, 66, 12, 1, 2, 3, 1]
}

fn big_test_values() -> Vec<i32> {
    let mut values = Vec::new();
    let mut state: u64 = 0x2545_f491_4f6c_dd1d;
    for _ in 0..10_000 {
        state = state
            .wrapping_mul(6364136223846793005)
            .wrapping_add(1442695040888963407);
        values.push((state >> 32) as i32);
    }
    values
}

fn filled<C: BucketVecConfig>(values: &[i32]) -> BucketVec<i32, C> {
    let mut vec = <BucketVec<i32, C>>::new();
    for value in values {
        vec.push(*value);
    }
    vec
}

fn new_works_for<C: BucketVecConfig>(_test_values: Vec<i32>) {
    let mut vec = <BucketVec<i32, C>>::new();
    assert_eq!(vec.len(), 0);
    assert!(vec.is_empty());
    assert!(vec.iter().next().is_none());
    assert!(vec.iter().next_back().is_none());
    assert!(vec.iter_mut().next().is_none());
    assert!(vec.iter_mut().next_back().is_none());
    assert!(vec.first().is_none());
    assert!(vec.first_mut().is_none());
    assert!(vec.last().is_none());
    assert!(vec.last_mut().is_none());
    assert_eq!(vec.bucket_count(), 0);
}

fn push_works_for<C: BucketVecConfig>(test_values: Vec<i32>) {
    let mut vec = <BucketVec<i32, C>>::new();
    let expected_len = test_values.len();
    for (i, value) in test_values.into_iter().enumerate() {
        assert_eq!(vec.len(), i);
        vec.push(value);
    }
    assert_eq!(vec.len(), expected_len);
}

fn iter_next_works_for<C: BucketVecConfig>(test_values: Vec<i32>) {
    let vec = filled::<C>(&test_values);
    let iter = vec.iter();
    assert_eq!(iter.len(), test_values.len());
    assert_eq!(iter.size_hint(), (test_values.len(), Some(test_values.len())));
    let mut expected = test_values.iter();
    for elem in iter {
        assert_eq!(Some(elem), expected.next());
    }
    assert_eq!(expected.next(), None);
}

fn iter_next_back_works<C: BucketVecConfig>(test_values: Vec<i32>) {
    let vec = filled::<C>(&test_values);
    let iter = vec.iter().rev();
    assert_eq!(iter.len(), test_values.len());
    let mut expected = test_values.iter().rev();
    for elem in iter {
        assert_eq!(Some(elem), expected.next());
    }
    assert_eq!(expected.next(), None);
}

fn iter_next_meet_middle_works_for<C: BucketVecConfig>(test_values: Vec<i32>) {
    let vec = filled::<C>(&test_values);
    let mut expected = test_values.iter();
    let mut iter = vec.iter();
    for step in 0..iter.len() {
        assert_eq!(iter.len(), test_values.len() - step);
        if step % 2 == 0 {
            assert_eq!(iter.next(), expected.next());
        } else {
            assert_eq!(iter.next_back(), expected.next_back());
        }
    }
    assert_eq!(iter.len(), 0);
    assert_eq!(iter.next(), None);
    assert_eq!(iter.next_back(), None);
    assert_eq!(iter.len(), 0);
}

fn iter_mut_next_works_for<C: BucketVecConfig>(mut test_values: Vec<i32>) {
    let mut vec = filled::<C>(&test_values);
    let mut iter = vec.iter_mut();
    let mut expected = test_values.iter_mut();
    assert_eq!(iter.len(), expected.len());
    while let Some(elem) = iter.next() {
        assert_eq!(Some(elem), expected.next());
    }
    assert_eq!(expected.next(), None);
    assert_eq!(iter.len(), 0);
}

fn iter_mut_next_back_works_for<C: BucketVecConfig>(mut test_values: Vec<i32>) {
    let mut vec = filled::<C>(&test_values);
    let mut iter = vec.iter_mut();
    let mut expected = test_values.iter_mut().rev();
    assert_eq!(iter.len(), expected.len());
    while let Some(elem) = iter.next_back() {
        assert_eq!(Some(elem), expected.next());
    }
    assert_eq!(expected.next(), None);
    assert_eq!(iter.len(), 0);
}

fn iter_mut_next_meet_middle_works_for<C: BucketVecConfig>(mut test_values: Vec<i32>) {
    let mut vec = filled::<C>(&test_values);
    let mut expected = test_values.iter_mut();
    let mut iter = vec.iter_mut();
    for step in 0..iter.len() {
        if step % 2 == 0 {
            assert_eq!(iter.next(), expected.next());
        } else {
            assert_eq!(iter.next_back(), expected.next_back());
        }
    }
    assert_eq!(iter.next(), None);
    assert_eq!(iter.next_back(), None);
}

fn into_iter_works_for<C: BucketVecConfig>(test_values: Vec<i32>) {
    let forward: Vec<i32> = filled::<C>(&test_values).into_iter().collect();
    assert_eq!(forward, test_values);
    let backward: Vec<i32> = filled::<C>(&test_values).into_iter().rev().collect();
    let reversed: Vec<i32> = test_values.iter().rev().cloned().collect();
    assert_eq!(backward, reversed);
    let mut iter = filled::<C>(&test_values).into_iter();
    let mut expected = test_values.iter().cloned();
    for step in 0..iter.len() {
        assert_eq!(iter.len(), test_values.len() - step);
        if step % 3 == 0 {
            assert_eq!(iter.next_back(), expected.next_back());
        } else {
            assert_eq!(iter.next(), expected.next());
        }
    }
    assert_eq!(iter.next(), None);
    assert_eq!(iter.next_back(), None);
}

fn access_works_for<C: BucketVecConfig>(test_values: Vec<i32>) {
    let mut vec = <BucketVec<i32, C>>::new();
    for (n, expected) in test_values.into_iter().enumerate() {
        assert_eq!(vec.push_get(expected).index(), 3 * n);
        assert_eq!(vec.push_get(expected).into_ref(), &expected);
        assert_eq!(vec.push_get(expected).into_mut(), &mut expected.clone());
    }
}

fn get_works_for<C: BucketVecConfig>(test_values: Vec<i32>) {
    let vec = filled::<C>(&test_values);
    for (n, expected) in test_values.into_iter().enumerate() {
        assert_eq!(vec.get(n), Some(&expected));
    }
    assert_eq!(vec.get(vec.len()), None);
}

fn get_mut_works_for<C: BucketVecConfig>(test_values: Vec<i32>) {
    let mut vec = filled::<C>(&test_values);
    for (n, mut expected) in test_values.into_iter().enumerate() {
        assert_eq!(vec.get_mut(n), Some(&mut expected));
    }
    let len = vec.len();
    assert_eq!(vec.get_mut(len), None);
}

fn last_works_for<C: BucketVecConfig>(mut test_values: Vec<i32>) {
    let mut vec = filled::<C>(&test_values);
    assert_eq!(vec.last(), test_values.last());
    assert_eq!(vec.last_mut(), test_values.last_mut());
}

fn first_works_for<C: BucketVecConfig>(mut test_values: Vec<i32>) {
    let mut vec = filled::<C>(&test_values);
    assert_eq!(vec.first(), test_values.first());
    assert_eq!(vec.first_mut(), test_values.first_mut());
}

#[test]
fn new_works_for_quadratic_config_small() {
    new_works_for::<QuadraticConfig>(small_test_values())
}

#[test]
fn new_works_for_quadratic_config_big() {
    new_works_for::<QuadraticConfig>(big_test_values())
}

#[test]
fn new_works_for_cubic_config_small() {
    new_works_for::<CubicConfig>(small_test_values())
}

#[test]
fn new_works_for_cubic_config_big() {
    new_works_for::<CubicConfig>(big_test_values())
}

#[test]
fn new_works_for_equal_size_config_small() {
    new_works_for::<EqualSizeConfig>(small_test_values())
}

#[test]
fn new_works_for_equal_size_config_big() {
    new_works_for::<EqualSizeConfig>(big_test_values())
}

#[test]
fn new_works_for_wasteful_config_small() {
    new_works_for::<WastefulConfig>(small_test_values())
}

#[test]
fn new_works_for_wasteful_config_big() {
    new_works_for::<WastefulConfig>(big_test_values())
}

#[test]
fn new_works_for_c3g1x5_config_small() {
    new_works_for::<C3G1x5Config>(small_test_values())
}

#[test]
fn new_works_for_c3g1x5_config_big() {
    new_works_for::<C3G1x5Config>(big_test_values())
}

#[test]
fn new_works_for_crazy_pi_config_small() {
    new_works_for::<CrazyPiConfig>(small_test_values())
}

#[test]
fn new_works_for_crazy_pi_config_big() {
    new_works_for::<CrazyPiConfig>(big_test_values())
}

#[test]
fn push_works_for_quadratic_config_small() {
    push_works_for::<QuadraticConfig>(small_test_values())
}

#[test]
fn push_works_for_quadratic_config_big() {
    push_works_for::<QuadraticConfig>(big_test_values())
}

#[test]
fn push_works_for_cubic_config_small() {
    push_works_for::<CubicConfig>(small_test_values())
}

#[test]
fn push_works_for_cubic_config_big() {
    push_works_for::<CubicConfig>(big_test_values())
}

#[test]
fn push_works_for_equal_size_config_small() {
    push_works_for::<EqualSizeConfig>(small_test_values())
}

#[test]
fn push_works_for_equal_size_config_big() {
    push_works_for::<EqualSizeConfig>(big_test_values())
}

#[test]
fn push_works_for_wasteful_config_small() {
    push_works_for::<WastefulConfig>(small_test_values())
}

#[test]
fn push_works_for_wasteful_config_big() {
    push_works_for::<WastefulConfig>(big_test_values())
}

#[test]
fn push_works_for_c3g1x5_config_small() {
    push_works_for::<C3G1x5Config>(small_test_values())
}

#[test]
fn push_works_for_c3g1x5_config_big() {
    push_works_for::<C3G1x5Config>(big_test_values())
}

#[test]
fn push_works_for_crazy_pi_config_small() {
    push_works_for::<CrazyPiConfig>(small_test_values())
}

#[test]
fn push_works_for_crazy_pi_config_big() {
    push_works_for::<CrazyPiConfig>(big_test_values())
}

#[test]
fn iter_next_works_for_quadratic_config_small() {
    iter_next_works_for::<QuadraticConfig>(small_test_values())
}

#[test]
fn iter_next_works_for_quadratic_config_big() {
    iter_next_works_for::<QuadraticConfig>(big_test_values())
}

#[test]
fn iter_next_works_for_cubic_config_small() {
    iter_next_works_for::<CubicConfig>(small_test_values())
}

#[test]
fn iter_next_works_for_cubic_config_big() {
    iter_next_works_for::<CubicConfig>(big_test_values())
}

#[test]
fn iter_next_works_for_equal_size_config_small() {
    iter_next_works_for::<EqualSizeConfig>(small_test_values())
}

#[test]
fn iter_next_works_for_equal_size_config_big() {
    iter_next_works_for::<EqualSizeConfig>(big_test_values())
}

#[test]
fn iter_next_works_for_wasteful_config_small() {
    iter_next_works_for::<WastefulConfig>(small_test_values())
}

#[test]
fn iter_next_works_for_wasteful_config_big() {
    iter_next_works_for::<WastefulConfig>(big_test_values())
}

#[test]
fn iter_next_works_for_c3g1x5_config_small() {
    iter_next_works_for::<C3G1x5Config>(small_test_values())
}

#[test]
fn iter_next_works_for_c3g1x5_config_big() {
    iter_next_works_for::<C3G1x5Config>(big_test_values())
}

#[test]
fn iter_next_works_for_crazy_pi_config_small() {
    iter_next_works_for::<CrazyPiConfig>(small_test_values())
}

#[test]
fn iter_next_works_for_crazy_pi_config_big() {
    iter_next_works_for::<CrazyPiConfig>(big_test_values())
}

#[test]
fn iter_next_back_works_quadratic_config_small() {
    iter_next_back_works::<QuadraticConfig>(small_test_values())
}

#[test]
fn iter_next_back_works_quadratic_config_big() {
    iter_next_back_works::<QuadraticConfig>(big_test_values())
}

#[test]
fn iter_next_back_works_cubic_config_small() {
    iter_next_back_works::<CubicConfig>(small_test_values())
}

#[test]
fn iter_next_back_works_cubic_config_big() {
    iter_next_back_works::<CubicConfig>(big_test_values())
}

#[test]
fn iter_next_back_works_equal_size_config_small() {
    iter_next_back_works::<EqualSizeConfig>(small_test_values())
}

#[test]
fn iter_next_back_works_equal_size_config_big() {
    iter_next_back_works::<EqualSizeConfig>(big_test_values())
}

#[test]
fn iter_next_back_works_wasteful_config_small() {
    iter_next_back_works::<WastefulConfig>(small_test_values())
}

#[test]
fn iter_next_back_works_wasteful_config_big() {
    iter_next_back_works::<WastefulConfig>(big_test_values())
}

#[test]
fn iter_next_back_works_c3g1x5_config_small() {
    iter_next_back_works::<C3G1x5Config>(small_test_values())
}

#[test]
fn iter_next_back_works_c3g1x5_config_big() {
    iter_next_back_works::<C3G1x5Config>(big_test_values())
}

#[test]
fn iter_next_back_works_crazy_pi_config_small() {
    iter_next_back_works::<CrazyPiConfig>(small_test_values())
}

#[test]
fn iter_next_back_works_crazy_pi_config_big() {
    iter_next_back_works::<CrazyPiConfig>(big_test_values())
}

#[test]
fn iter_next_meet_middle_works_for_quadratic_config_small() {
    iter_next_meet_middle_works_for::<QuadraticConfig>(small_test_values())
}

#[test]
fn iter_next_meet_middle_works_for_quadratic_config_big() {
    iter_next_meet_middle_works_for::<QuadraticConfig>(big_test_values())
}

#[test]
fn iter_next_meet_middle_works_for_cubic_config_small() {
    iter_next_meet_middle_works_for::<CubicConfig>(small_test_values())
}

#[test]
fn iter_next_meet_middle_works_for_cubic_config_big() {
    iter_next_meet_middle_works_for::<CubicConfig>(big_test_values())
}

#[test]
fn iter_next_meet_middle_works_for_equal_size_config_small() {
    iter_next_meet_middle_works_for::<EqualSizeConfig>(small_test_values())
}

#[test]
fn iter_next_meet_middle_works_for_equal_size_config_big() {
    iter_next_meet_middle_works_for::<EqualSizeConfig>(big_test_values())
}

#[test]
fn iter_next_meet_middle_works_for_wasteful_config_small() {
    iter_next_meet_middle_works_for::<WastefulConfig>(small_test_values())
}

#[test]
fn iter_next_meet_middle_works_for_wasteful_config_big() {
    iter_next_meet_middle_works_for::<WastefulConfig>(big_test_values())
}

#[test]
fn iter_next_meet_middle_works_for_c3g1x5_config_small() {
    iter_next_meet_middle_works_for::<C3G1x5Config>(small_test_values())
}

#[test]
fn iter_next_meet_middle_works_for_c3g1x5_config_big() {
    iter_next_meet_middle_works_for::<C3G1x5Config>(big_test_values())
}

#[test]
fn iter_next_meet_middle_works_for_crazy_pi_config_small() {
    iter_next_meet_middle_works_for::<CrazyPiConfig>(small_test_values())
}

#[test]
fn iter_next_meet_middle_works_for_crazy_pi_config_big() {
    iter_next_meet_middle_works_for::<CrazyPiConfig>(big_test_values())
}

#[test]
fn iter_mut_next_works_for_quadratic_config_small() {
    iter_mut_next_works_for::<QuadraticConfig>(small_test_values())
}

#[test]
fn iter_mut_next_works_for_quadratic_config_big() {
    iter_mut_next_works_for::<QuadraticConfig>(big_test_values())
}

#[test]
fn iter_mut_next_works_for_cubic_config_small() {
    iter_mut_next_works_for::<CubicConfig>(small_test_values())
}

#[test]
fn iter_mut_next_works_for_cubic_config_big() {
    iter_mut_next_works_for::<CubicConfig>(big_test_values())
}

#[test]
fn iter_mut_next_works_for_equal_size_config_small() {
    iter_mut_next_works_for::<EqualSizeConfig>(small_test_values())
}

#[test]
fn iter_mut_next_works_for_equal_size_config_big() {
    iter_mut_next_works_for::<EqualSizeConfig>(big_test_values())
}

#[test]
fn iter_mut_next_works_for_wasteful_config_small() {
    iter_mut_next_works_for::<WastefulConfig>(small_test_values())
}

#[test]
fn iter_mut_next_works_for_wasteful_config_big() {
    iter_mut_next_works_for::<WastefulConfig>(big_test_values())
}

#[test]
fn iter_mut_next_works_for_c3g1x5_config_small() {
    iter_mut_next_works_for::<C3G1x5Config>(small_test_values())
}

#[test]
fn iter_mut_next_works_for_c3g1x5_config_big() {
    iter_mut_next_works_for::<C3G1x5Config>(big_test_values())
}

#[test]
fn iter_mut_next_works_for_crazy_pi_config_small() {
    iter_mut_next_works_for::<CrazyPiConfig>(small_test_values())
}

#[test]
fn iter_mut_next_works_for_crazy_pi_config_big() {
    iter_mut_next_works_for::<CrazyPiConfig>(big_test_values())
}

#[test]
fn iter_mut_next_back_works_for_quadratic_config_small() {
    iter_mut_next_back_works_for::<QuadraticConfig>(small_test_values())
}

#[test]
fn iter_mut_next_back_works_for_quadratic_config_big() {
    iter_mut_next_back_works_for::<QuadraticConfig>(big_test_values())
}

#[test]
fn iter_mut_next_back_works_for_cubic_config_small() {
    iter_mut_next_back_works_for::<CubicConfig>(small_test_values())
}

#[test]
fn iter_mut_next_back_works_for_cubic_config_big() {
    iter_mut_next_back_works_for::<CubicConfig>(big_test_values())
}

#[test]
fn iter_mut_next_back_works_for_equal_size_config_small() {
    iter_mut_next_back_works_for::<EqualSizeConfig>(small_test_values())
}

#[test]
fn iter_mut_next_back_works_for_equal_size_config_big() {
    iter_mut_next_back_works_for::<EqualSizeConfig>(big_test_values())
}

#[test]
fn iter_mut_next_back_works_for_wasteful_config_small() {
    iter_mut_next_back_works_for::<WastefulConfig>(small_test_values())
}

#[test]
fn iter_mut_next_back_works_for_wasteful_config_big() {
    iter_mut_next_back_works_for::<WastefulConfig>(big_test_values())
}

#[test]
fn iter_mut_next_back_works_for_c3g1x5_config_small() {
    iter_mut_next_back_works_for::<C3G1x5Config>(small_test_values())
}

#[test]
fn iter_mut_next_back_works_for_c3g1x5_config_big() {
    iter_mut_next_back_works_for::<C3G1x5Config>(big_test_values())
}

#[test]
fn iter_mut_next_back_works_for_crazy_pi_config_small() {
    iter_mut_next_back_works_for::<CrazyPiConfig>(small_test_values())
}

#[test]
fn iter_mut_next_back_works_for_crazy_pi_config_big() {
    iter_mut_next_back_works_for::<CrazyPiConfig>(big_test_values())
}

#[test]
fn iter_mut_next_meet_middle_works_for_quadratic_config_small() {
    iter_mut_next_meet_middle_works_for::<QuadraticConfig>(small_test_values())
}

#[test]
fn iter_mut_next_meet_middle_works_for_quadratic_config_big() {
    iter_mut_next_meet_middle_works_for::<QuadraticConfig>(big_test_values())
}

#[test]
fn iter_mut_next_meet_middle_works_for_cubic_config_small() {
    iter_mut_next_meet_middle_works_for::<CubicConfig>(small_test_values())
}

#[test]
fn iter_mut_next_meet_middle_works_for_cubic_config_big() {
    iter_mut_next_meet_middle_works_for::<CubicConfig>(big_test_values())
}

#[test]
fn iter_mut_next_meet_middle_works_for_equal_size_config_small() {
    iter_mut_next_meet_middle_works_for::<EqualSizeConfig>(small_test_values())
}

#[test]
fn iter_mut_next_meet_middle_works_for_equal_size_config_big() {
    iter_mut_next_meet_middle_works_for::<EqualSizeConfig>(big_test_values())
}

#[test]
fn iter_mut_next_meet_middle_works_for_wasteful_config_small() {
    iter_mut_next_meet_middle_works_for::<WastefulConfig>(small_test_values())
}

#[test]
fn iter_mut_next_meet_middle_works_for_wasteful_config_big() {
    iter_mut_next_meet_middle_works_for::<WastefulConfig>(big_test_values())
}

#[test]
fn iter_mut_next_meet_middle_works_for_c3g1x5_config_small() {
    iter_mut_next_meet_middle_works_for::<C3G1x5Config>(small_test_values())
}

#[test]
fn iter_mut_next_meet_middle_works_for_c3g1x5_config_big() {
    iter_mut_next_meet_middle_works_for::<C3G1x5Config>(big_test_values())
}

#[test]
fn iter_mut_next_meet_middle_works_for_crazy_pi_config_small() {
    iter_mut_next_meet_middle_works_for::<CrazyPiConfig>(small_test_values())
}

#[test]
fn iter_mut_next_meet_middle_works_for_crazy_pi_config_big() {
    iter_mut_next_meet_middle_works_for::<CrazyPiConfig>(big_test_values())
}

#[test]
fn into_iter_works_for_quadratic_config_small() {
    into_iter_works_for::<QuadraticConfig>(small_test_values())
}

#[test]
fn into_iter_works_for_quadratic_config_big() {
    into_iter_works_for::<QuadraticConfig>(big_test_values())
}

#[test]
fn into_iter_works_for_cubic_config_small() {
    into_iter_works_for::<CubicConfig>(small_test_values())
}

#[test]
fn into_iter_works_for_cubic_config_big() {
    into_iter_works_for::<CubicConfig>(big_test_values())
}

#[test]
fn into_iter_works_for_equal_size_config_small() {
    into_iter_works_for::<EqualSizeConfig>(small_test_values())
}

#[test]
fn into_iter_works_for_equal_size_config_big() {
    into_iter_works_for::<EqualSizeConfig>(big_test_values())
}

#[test]
fn into_iter_works_for_wasteful_config_small() {
    into_iter_works_for::<WastefulConfig>(small_test_values())
}

#[test]
fn into_iter_works_for_wasteful_config_big() {
    into_iter_works_for::<WastefulConfig>(big_test_values())
}

#[test]
fn into_iter_works_for_c3g1x5_config_small() {
    into_iter_works_for::<C3G1x5Config>(small_test_values())
}

#[test]
fn into_iter_works_for_c3g1x5_config_big() {
    into_iter_works_for::<C3G1x5Config>(big_test_values())
}

#[test]
fn into_iter_works_for_crazy_pi_config_small() {
    into_iter_works_for::<CrazyPiConfig>(small_test_values())
}

#[test]
fn into_iter_works_for_crazy_pi_config_big() {
    into_iter_works_for::<CrazyPiConfig>(big_test_values())
}

#[test]
fn access_works_for_quadratic_config_small() {
    access_works_for::<QuadraticConfig>(small_test_values())
}

#[test]
fn access_works_for_quadratic_config_big() {
    access_works_for::<QuadraticConfig>(big_test_values())
}

#[test]
fn access_works_for_cubic_config_small() {
    access_works_for::<CubicConfig>(small_test_values())
}

#[test]
fn access_works_for_cubic_config_big() {
    access_works_for::<CubicConfig>(big_test_values())
}

#[test]
fn access_works_for_equal_size_config_small() {
    access_works_for::<EqualSizeConfig>(small_test_values())
}

#[test]
fn access_works_for_equal_size_config_big() {
    access_works_for::<EqualSizeConfig>(big_test_values())
}

#[test]
fn access_works_for_wasteful_config_small() {
    access_works_for::<WastefulConfig>(small_test_values())
}

#[test]
fn access_works_for_wasteful_config_big() {
    access_works_for::<WastefulConfig>(big_test_values())
}

#[test]
fn access_works_for_c3g1x5_config_small() {
    access_works_for::<C3G1x5Config>(small_test_values())
}

#[test]
fn access_works_for_c3g1x5_config_big() {
    access_works_for::<C3G1x5Config>(big_test_values())
}

#[test]
fn access_works_for_crazy_pi_config_small() {
    access_works_for::<CrazyPiConfig>(small_test_values())
}

#[test]
fn access_works_for_crazy_pi_config_big() {
    access_works_for::<CrazyPiConfig>(big_test_values())
}

#[test]
fn get_works_for_quadratic_config_small() {
    get_works_for::<QuadraticConfig>(small_test_values())
}

#[test]
fn get_works_for_quadratic_config_big() {
    get_works_for::<QuadraticConfig>(big_test_values())
}

#[test]
fn get_works_for_cubic_config_small() {
    get_works_for::<CubicConfig>(small_test_values())
}

#[test]
fn get_works_for_cubic_config_big() {
    get_works_for::<CubicConfig>(big_test_values())
}

#[test]
fn get_works_for_equal_size_config_small() {
    get_works_for::<EqualSizeConfig>(small_test_values())
}

#[test]
fn get_works_for_equal_size_config_big() {
    get_works_for::<EqualSizeConfig>(big_test_values())
}

#[test]
fn get_works_for_wasteful_config_small() {
    get_works_for::<WastefulConfig>(small_test_values())
}

#[test]
fn get_works_for_wasteful_config_big() {
    get_works_for::<WastefulConfig>(big_test_values())
}

#[test]
fn get_works_for_c3g1x5_config_small() {
    get_works_for::<C3G1x5Config>(small_test_values())
}

#[test]
fn get_works_for_c3g1x5_config_big() {
    get_works_for::<C3G1x5Config>(big_test_values())
}

#[test]
fn get_works_for_crazy_pi_config_small() {
    get_works_for::<CrazyPiConfig>(small_test_values())
}

#[test]
fn get_works_for_crazy_pi_config_big() {
    get_works_for::<CrazyPiConfig>(big_test_values())
}

#[test]
fn get_mut_works_for_quadratic_config_small() {
    get_mut_works_for::<QuadraticConfig>(small_test_values())
}

#[test]
fn get_mut_works_for_quadratic_config_big() {
    get_mut_works_for::<QuadraticConfig>(big_test_values())
}

#[test]
fn get_mut_works_for_cubic_config_small() {
    get_mut_works_for::<CubicConfig>(small_test_values())
}

#[test]
fn get_mut_works_for_cubic_config_big() {
    get_mut_works_for::<CubicConfig>(big_test_values())
}

#[test]
fn get_mut_works_for_equal_size_config_small() {
    get_mut_works_for::<EqualSizeConfig>(small_test_values())
}

#[test]
fn get_mut_works_for_equal_size_config_big() {
    get_mut_works_for::<EqualSizeConfig>(big_test_values())
}

#[test]
fn get_mut_works_for_wasteful_config_small() {
    get_mut_works_for::<WastefulConfig>(small_test_values())
}

#[test]
fn get_mut_works_for_wasteful_config_big() {
    get_mut_works_for::<WastefulConfig>(big_test_values())
}

#[test]
fn get_mut_works_for_c3g1x5_config_small() {
    get_mut_works_for::<C3G1x5Config>(small_test_values())
}

#[test]
fn get_mut_works_for_c3g1x5_config_big() {
    get_mut_works_for::<C3G1x5Config>(big_test_values())
}

#[test]
fn get_mut_works_for_crazy_pi_config_small() {
    get_mut_works_for::<CrazyPiConfig>(small_test_values())
}

#[test]
fn get_mut_works_for_crazy_pi_config_big() {
    get_mut_works_for::<CrazyPiConfig>(big_test_values())
}

#[test]
fn last_works_for_quadratic_config_small() {
    last_works_for::<QuadraticConfig>(small_test_values())
}

#[test]
fn last_works_for_quadratic_config_big() {
    last_works_for::<QuadraticConfig>(big_test_values())
}

#[test]
fn last_works_for_cubic_config_small() {
    last_works_for::<CubicConfig>(small_test_values())
}

#[test]
fn last_works_for_cubic_config_big() {
    last_works_for::<CubicConfig>(big_test_values())
}

#[test]
fn last_works_for_equal_size_config_small() {
    last_works_for::<EqualSizeConfig>(small_test_values())
}

#[test]
fn last_works_for_equal_size_config_big() {
    last_works_for::<EqualSizeConfig>(big_test_values())
}

#[test]
fn last_works_for_wasteful_config_small() {
    last_works_for::<WastefulConfig>(small_test_values())
}

#[test]
fn last_works_for_wasteful_config_big() {
    last_works_for::<WastefulConfig>(big_test_values())
}

#[test]
fn last_works_for_c3g1x5_config_small() {
    last_works_for::<C3G1x5Config>(small_test_values())
}

#[test]
fn last_works_for_c3g1x5_config_big() {
    last_works_for::<C3G1x5Config>(big_test_values())
}

#[test]
fn last_works_for_crazy_pi_config_small() {
    last_works_for::<CrazyPiConfig>(small_test_values())
}

#[test]
fn last_works_for_crazy_pi_config_big() {
    last_works_for::<CrazyPiConfig>(big_test_values())
}

#[test]
fn first_works_for_quadratic_config_small() {
    first_works_for::<QuadraticConfig>(small_test_values())
}

#[test]
fn first_works_for_quadratic_config_big() {
    first_works_for::<QuadraticConfig>(big_test_values())
}

#[test]
fn first_works_for_cubic_config_small() {
    first_works_for::<CubicConfig>(small_test_values())
}

#[test]
fn first_works_for_cubic_config_big() {
    first_works_for::<CubicConfig>(big_test_values())
}

#[test]
fn first_works_for_equal_size_config_small() {
    first_works_for::<EqualSizeConfig>(small_test_values())
}

#[test]
fn first_works_for_equal_size_config_big() {
    first_works_for::<EqualSizeConfig>(big_test_values())
}

#[test]
fn first_works_for_wasteful_config_small() {
    first_works_for::<WastefulConfig>(small_test_values())
}

#[test]
fn first_works_for_wasteful_config_big() {
    first_works_for::<WastefulConfig>(big_test_values())
}

#[test]
fn first_works_for_c3g1x5_config_small() {
    first_works_for::<C3G1x5Config>(small_test_values())
}

#[test]
fn first_works_for_c3g1x5_config_big() {
    first_works_for::<C3G1x5Config>(big_test_values())
}

#[test]
fn first_works_for_crazy_pi_config_small() {
    first_works_for::<CrazyPiConfig>(small_test_values())
}

#[test]
fn first_works_for_crazy_pi_config_big() {
    first_works_for::<CrazyPiConfig>(big_test_values())
}
