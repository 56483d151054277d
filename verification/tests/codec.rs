use bucket_vec::codec::{decode_compact, encode_compact, DecodeError};
use bucket_vec::{BucketVec, BucketVecConfig, DefaultConfig};
use parity_scale_codec::{Compact, Decode, Encode};

pub enum HalfMore {}

impl BucketVecConfig for HalfMore {
    const STARTING_CAPACITY: usize = 3;
    const GROWTH_NUMERATOR: usize = 3;
    const GROWTH_DENOMINATOR: usize = 2;
}

pub enum ExactPi {}

impl BucketVecConfig for ExactPi {
    const STARTING_CAPACITY: usize = 3;
    const GROWTH_NUMERATOR: usize = 314159265;
    const GROWTH_DENOMINATOR: usize = 100000000;
}

pub enum Explosive {}

impl BucketVecConfig for Explosive {
    const STARTING_CAPACITY: usize = 1;
    const GROWTH_NUMERATOR: usize = usize::MAX;
    const GROWTH_DENOMINATOR: usize = 1;
}

fn compact(value: u64) -> Vec<u8> {
    let mut output = Vec::new();
    encode_compact(value, &mut output);
    output
}

fn interesting_numbers() -> Vec<u64> {
    let mut numbers = vec![0, 1, 2, 63, 64, 65, 255, 256, 16383, 16384, 16385, u64::MAX];
    for shift in 0..64 {
        let power = 1u64 << shift;
        numbers.push(power);
        numbers.push(power - 1);
        numbers.push(power + 1);
        numbers.push(power | (power >> 3));
    }
    numbers
}

#[test]
fn compact_form_of_small_numbers_is_one_byte() {
    assert_eq!(compact(0), vec![0x00]);
    assert_eq!(compact(1), vec![0x04]);
    assert_eq!(compact(42), vec![0xa8]);
    assert_eq!(compact(63), vec![0xfc]);
}

#[test]
fn compact_form_of_larger_numbers_takes_more_bytes() {
    assert_eq!(compact(64), vec![0x01, 0x01]);
    assert_eq!(compact(69), vec![0x15, 0x01]);
    assert_eq!(compact(16383), vec![0xfd, 0xff]);
    assert_eq!(compact(16384), vec![0x02, 0x00, 0x01, 0x00]);
    assert_eq!(compact((1 << 30) - 1), vec![0xfe, 0xff, 0xff, 0xff]);
    assert_eq!(compact(1 << 30), vec![0x03, 0x00, 0x00, 0x00, 0x40]);
    assert_eq!(compact((1 << 32) - 1), vec![0x03, 0xff, 0xff, 0xff, 0xff]);
    assert_eq!(compact(1 << 32), vec![0x07, 0x00, 0x00, 0x00, 0x00, 0x01]);
    assert_eq!(compact(1 << 40), vec![0x0b, 0x00, 0x00, 0x00, 0x00, 0x00, 0x01]);
    assert_eq!(compact(1 << 48), vec![0x0f, 0x00, 0x00, 0x00, 0x00, 0x00, 0x00, 0x01]);
    assert_eq!(
        compact(1 << 56),
        vec![0x13, 0x00, 0x00, 0x00, 0x00, 0x00, 0x00, 0x00, 0x01]
    );
    assert_eq!(
        compact(u64::MAX),
        vec![0x13, 0xff, 0xff, 0xff, 0xff, 0xff, 0xff, 0xff, 0xff]
    );
}

#[test]
fn compact_form_appends_to_the_output() {
    let mut output = vec![9, 9];
    encode_compact(64, &mut output);
    encode_compact(0, &mut output);
    assert_eq!(output, vec![9, 9, 0x01, 0x01, 0x00]);
}

#[test]
fn compact_form_is_that_of_the_scale_codec() {
    for number in interesting_numbers() {
        assert_eq!(compact(number), Compact(number).encode());
    }
}

#[test]
fn compact_round_trip() {
    for number in interesting_numbers() {
        let mut bytes = compact(number);
        let used = bytes.len();
        assert_eq!(decode_compact(&bytes), Ok((number, used)));
        bytes.extend_from_slice(&[0xff, 0x00, 0x13]);
        assert_eq!(decode_compact(&bytes), Ok((number, used)));
    }
}

#[test]
fn decode_compact_agrees_with_the_scale_codec() {
    let mut inputs: Vec<Vec<u8>> = Vec::new();
    for first in 0..=255u8 {
        inputs.push(vec![first]);
        for fill in [0x00u8, 0x01, 0x3f, 0x40, 0x80, 0xff] {
            for len in 1..10 {
                let mut input = vec![first];
                input.resize(1 + len, fill);
                inputs.push(input.clone());
                let last = input.len() - 1;
                input[last] = 0;
                inputs.push(input.clone());
                input[last] = 1;
                inputs.push(input);
            }
        }
    }
    inputs.push(vec![]);
    for input in inputs {
        let mut rest: &[u8] = &input;
        let theirs = <Compact<u64>>::decode(&mut rest);
        match decode_compact(&input) {
            Ok((value, used)) => {
                assert_eq!(theirs.map(|compact| compact.0).ok(), Some(value));
                assert_eq!(input.len() - rest.len(), used);
            }
            Err(_) => assert!(theirs.is_err()),
        }
    }
}

#[test]
fn decode_compact_fails_on_what_is_no_compact_form() {
    // the bytes end too early
    assert_eq!(decode_compact(&[]), Err(DecodeError::Count));
    assert_eq!(decode_compact(&[0x01]), Err(DecodeError::Count));
    assert_eq!(decode_compact(&[0x02, 0x00, 0x01]), Err(DecodeError::Count));
    assert_eq!(decode_compact(&[0x03, 0x00, 0x00, 0x00]), Err(DecodeError::Count));
    assert_eq!(
        decode_compact(&[0x13, 0xff, 0xff, 0xff, 0xff, 0xff, 0xff, 0xff]),
        Err(DecodeError::Count)
    );
    // 63 in two bytes, 16383 in four, 2^30 - 1 in five, 2^32 - 1 in six
    assert_eq!(decode_compact(&[0xfd, 0x00]), Err(DecodeError::Count));
    assert_eq!(decode_compact(&[0x01, 0x00]), Err(DecodeError::Count));
    assert_eq!(decode_compact(&[0xfe, 0xff, 0x00, 0x00]), Err(DecodeError::Count));
    assert_eq!(decode_compact(&[0x03, 0xff, 0xff, 0xff, 0x3f]), Err(DecodeError::Count));
    assert_eq!(
        decode_compact(&[0x07, 0xff, 0xff, 0xff, 0xff, 0x00]),
        Err(DecodeError::Count)
    );
    assert_eq!(
        decode_compact(&[0x13, 0xff, 0xff, 0xff, 0xff, 0xff, 0xff, 0xff, 0x00]),
        Err(DecodeError::Count)
    );
    // a number of nine bytes and more
    assert_eq!(decode_compact(&[0x17]), Err(DecodeError::Count));
    assert_eq!(
        decode_compact(&[0x17, 1, 1, 1, 1, 1, 1, 1, 1, 1]),
        Err(DecodeError::Count)
    );
    assert_eq!(decode_compact(&[0xff, 1, 1]), Err(DecodeError::Count));
    // the shortest forms next to them
    assert_eq!(decode_compact(&[0x01, 0x01]), Ok((64, 2)));
    assert_eq!(decode_compact(&[0x02, 0x00, 0x01, 0x00]), Ok((16384, 4)));
    assert_eq!(decode_compact(&[0x03, 0x00, 0x00, 0x00, 0x40]), Ok((1 << 30, 5)));
    assert_eq!(decode_compact(&[0x07, 0x00, 0x00, 0x00, 0x00, 0x01]), Ok((1 << 32, 6)));
}

fn bytes_of(len: usize) -> Vec<u8> {
    let mut state: u32 = 0x9e37_79b9;
    let mut bytes = Vec::new();
    for _ in 0..len {
        state = state.wrapping_mul(1664525).wrapping_add(1013904223);
        bytes.push((state >> 24) as u8);
    }
    bytes
}

fn round_trip<C: BucketVecConfig>(len: usize) {
    let bytes = bytes_of(len);
    let mut vec = <BucketVec<u8, C>>::new();
    for byte in &bytes {
        vec.push(*byte);
    }
    let mut encoded = vec![0xaa];
    vec.encode_to(&mut encoded);
    assert_eq!(encoded[0], 0xaa);
    let encoded = encoded.split_off(1);
    assert_eq!(encoded, bytes.encode());
    let (decoded, used) = <BucketVec<u8, C>>::decode(&encoded).unwrap();
    assert_eq!(used, encoded.len());
    assert_eq!(decoded.len(), len);
    assert_eq!(decoded.iter().cloned().collect::<Vec<u8>>(), bytes);
    assert!(decoded == vec);
    let mut longer = encoded.clone();
    longer.extend_from_slice(&[1, 2, 3]);
    let (decoded, used) = <BucketVec<u8, C>>::decode(&longer).unwrap();
    assert_eq!(used, encoded.len());
    assert_eq!(decoded.iter().cloned().collect::<Vec<u8>>(), bytes);
    let across = <BucketVec<u8, DefaultConfig>>::decode(&encoded).unwrap().0;
    assert_eq!(across.iter().cloned().collect::<Vec<u8>>(), bytes);
    if len > 0 {
        let short = &encoded[..encoded.len() - 1];
        assert_eq!(
            <BucketVec<u8, C>>::decode(short).err(),
            Some(DecodeError::UnexpectedEnd)
        );
    }
}

#[test]
fn wire_format_round_trip() {
    for len in [0, 1, 2, 3, 4, 5, 12, 63, 64, 65, 100, 1000, 16383, 16384, 20000] {
        round_trip::<DefaultConfig>(len);
        round_trip::<HalfMore>(len);
        round_trip::<ExactPi>(len);
    }
}

#[test]
fn wire_format_is_count_then_elements() {
    let mut vec: BucketVec<u8> = BucketVec::new();
    let mut output = Vec::new();
    vec.encode_to(&mut output);
    assert_eq!(output, vec![0x00]);
    for byte in [7u8, 8, 9, 10, 11] {
        vec.push(byte);
    }
    let mut output = Vec::new();
    vec.encode_to(&mut output);
    assert_eq!(output, vec![0x14, 7, 8, 9, 10, 11]);
    let (decoded, used) = <BucketVec<u8>>::decode(&[0x0c, 1, 2, 3, 4]).unwrap();
    assert_eq!(used, 4);
    assert_eq!(decoded.iter().cloned().collect::<Vec<u8>>(), vec![1, 2, 3]);
    assert_eq!(decoded.bucket_count(), 1);
    assert_eq!(decoded.bucket_len(0), Some(3));
}

#[test]
fn decode_tells_why_it_fails() {
    assert_eq!(<BucketVec<u8>>::decode(&[]).err(), Some(DecodeError::Count));
    assert_eq!(<BucketVec<u8>>::decode(&[0x08, 1]).err(), Some(DecodeError::UnexpectedEnd));
    assert_eq!(<BucketVec<u8>>::decode(&[0x01, 0x00]).err(), Some(DecodeError::Count));
    assert_eq!(<BucketVec<u8>>::decode(&[0xff, 0x00]).err(), Some(DecodeError::Count));
    assert_eq!(
        <BucketVec<u8>>::decode(&[0x13, 0xff, 0xff, 0xff, 0xff, 0xff, 0xff, 0xff, 0xff, 0])
            .err(),
        Some(DecodeError::UnexpectedEnd)
    );
    assert_eq!(
        <BucketVec<u8, Explosive>>::decode(&[0x08, 1, 2]).err(),
        Some(DecodeError::Unsupported)
    );
    let (one, used) = <BucketVec<u8, Explosive>>::decode(&[0x04, 1, 2]).unwrap();
    assert_eq!((one.len(), used), (1, 2));
}
