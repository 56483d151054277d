//! The linear wire format of a bucket vector: the number of elements in
//! compact form, followed by the elements in their order. The buckets are
//! no part of it.
//!
//! The compact form of a number takes one, two, four or up to nine bytes.
//! The two lowest bits of the first byte tell which: `00` for a number
//! below `2^6`, `01` for one below `2^14`, `10` for one below `2^30`, each
//! held in the remaining bits of a little-endian integer of one, two or
//! four bytes; `11` for a larger number, whose bytes follow the first byte
//! in little-endian order, their count less four held in the upper six bits
//! of the first byte. A number has one compact form only: the shortest.
//!
//! The compact form is that of the SCALE codec, whose crate encodes and
//! decodes the numbers here.

use crate::config::{lemma_supports_below, spec_supports, valid_config, BucketVecConfig};
use crate::math::power;
use crate::BucketVec;
use vstd::prelude::*;

verus! {

/// Why a sequence of bytes is not the wire format of a bucket vector.
#[derive(Debug, Clone, Copy, PartialEq, Eq, Structural)]
pub enum DecodeError {
    /// The bytes do not start with the compact form of a number: they end
    /// before it does, or the number is not in its shortest form, or the
    /// first byte announces a number of more than eight bytes.
    Count,
    /// The bytes end before the elements do.
    UnexpectedEnd,
    /// The total capacity of the buckets that so many elements take does
    /// not fit a `usize`.
    Unsupported,
}

/// The `count` lowest bytes of `value`, lowest first.
pub open spec fn le_bytes(value: nat, count: nat) -> Seq<u8>
    decreases count,
{
    if count == 0 {
        Seq::empty()
    } else {
        seq![(value % 256) as u8] + le_bytes(value / 256, (count - 1) as nat)
    }
}

/// The number that the bytes make up, lowest byte first.
pub open spec fn le_value(bytes: Seq<u8>) -> nat
    decreases bytes.len(),
{
    if bytes.len() == 0 {
        0
    } else {
        bytes[0] as nat + 256 * le_value(bytes.drop_first())
    }
}

/// The number of bytes that a number of `2^30` or more takes: four to eight.
pub open spec fn wide_width(value: u64) -> nat {
    if value < 0x1_0000_0000 {
        4
    } else if value < 0x100_0000_0000 {
        5
    } else if value < 0x1_0000_0000_0000 {
        6
    } else if value < 0x100_0000_0000_0000 {
        7
    } else {
        8
    }
}

/// The least number that takes `width` bytes in the widest form.
pub open spec fn wide_least(width: nat) -> nat {
    if width <= 4 {
        0x4000_0000
    } else if width == 5 {
        0x1_0000_0000
    } else if width == 6 {
        0x100_0000_0000
    } else if width == 7 {
        0x1_0000_0000_0000
    } else {
        0x100_0000_0000_0000
    }
}

/// The compact form of a number.
pub open spec fn spec_compact(value: u64) -> Seq<u8> {
    if value < 0x40 {
        le_bytes((4 * value) as nat, 1)
    } else if value < 0x4000 {
        le_bytes((4 * value + 1) as nat, 2)
    } else if value < 0x4000_0000 {
        le_bytes((4 * value + 2) as nat, 4)
    } else {
        seq![(3 + 4 * (wide_width(value) - 4)) as u8] + le_bytes(value as nat, wide_width(value))
    }
}

/// The number whose compact form the bytes start with, and the length of
/// that form, if they start with one.
pub open spec fn spec_decode_compact(input: Seq<u8>) -> Option<(u64, nat)> {
    if input.len() == 0 {
        None
    } else if input[0] % 4 == 0 {
        Some(((input[0] / 4) as u64, 1))
    } else if input[0] % 4 == 1 {
        if input.len() < 2 || le_value(input.take(2)) / 4 < 0x40 {
            None
        } else {
            Some(((le_value(input.take(2)) / 4) as u64, 2))
        }
    } else if input[0] % 4 == 2 {
        if input.len() < 4 || le_value(input.take(4)) / 4 < 0x4000 {
            None
        } else {
            Some(((le_value(input.take(4)) / 4) as u64, 4))
        }
    } else {
        let width = (input[0] / 4 + 4) as nat;
        if width > 8 || input.len() < 1 + width || le_value(input.subrange(1, 1 + width as int))
            < wide_least(width) {
            None
        } else {
            Some((le_value(input.subrange(1, 1 + width as int)) as u64, 1 + width))
        }
    }
}

/// The lowest bytes of a number have their number, and make the number up
/// again if it takes no more bytes than they are.
pub proof fn lemma_le_bytes(value: nat, count: nat)
    ensures
        le_bytes(value, count).len() == count,
        value < power(256, count) ==> le_value(le_bytes(value, count)) == value,
    decreases count,
{
    if count > 0 {
        lemma_le_bytes(value / 256, (count - 1) as nat);
        let bytes = le_bytes(value, count);
        assert(bytes.drop_first() =~= le_bytes(value / 256, (count - 1) as nat));
        assert(bytes[0] == (value % 256) as u8);
        if value < power(256, count) {
            let limit = power(256, (count - 1) as nat);
            assert(value / 256 < limit) by (nonlinear_arith)
                requires
                    value < 256 * limit,
            ;
        }
    }
}

/// The powers of 256 up to the eighth.
pub proof fn lemma_powers_of_256()
    ensures
        power(256, 0) == 1,
        power(256, 1) == 0x100,
        power(256, 2) == 0x1_0000,
        power(256, 3) == 0x100_0000,
        power(256, 4) == 0x1_0000_0000,
        power(256, 5) == 0x100_0000_0000,
        power(256, 6) == 0x1_0000_0000_0000,
        power(256, 7) == 0x100_0000_0000_0000,
        power(256, 8) == 0x1_0000_0000_0000_0000,
{
    reveal_with_fuel(power, 10);
}

/// Round trip of the compact form: bytes that start with the compact form
/// of a number decode to that number and the length of its form.
pub proof fn lemma_compact_round_trip(value: u64, rest: Seq<u8>)
    ensures
        1 <= spec_compact(value).len() <= 9,
        spec_decode_compact(spec_compact(value) + rest) == Some(
            (value, spec_compact(value).len()),
        ),
{
    let form = spec_compact(value);
    let input = form + rest;
    lemma_powers_of_256();
    if value < 0x40 {
        lemma_le_bytes((4 * value) as nat, 1);
        assert(form[0] == ((4 * value) % 256) as u8);
        assert(input[0] == form[0]);
    } else if value < 0x4000 {
        let x = (4 * value + 1) as nat;
        lemma_le_bytes(x, 2);
        assert(form[0] == (x % 256) as u8);
        assert(input[0] == form[0]);
        assert(input.take(2) =~= form);
    } else if value < 0x4000_0000 {
        let x = (4 * value + 2) as nat;
        lemma_le_bytes(x, 4);
        assert(form[0] == (x % 256) as u8);
        assert(input[0] == form[0]);
        assert(input.take(4) =~= form);
    } else {
        let width = wide_width(value);
        lemma_le_bytes(value as nat, width);
        assert(input[0] == (3 + 4 * (width - 4)) as u8);
        assert(input.subrange(1, 1 + width as int) =~= le_bytes(value as nat, width));
    }
}

/// `Encode::encode` of the SCALE codec on `Compact<u64>`: the compact form
/// of the number, as its source writes it out for numbers below `2^6`,
/// `2^14` and `2^30` and for larger ones.
#[verifier::external_body]
fn compact_bytes(value: u64) -> (bytes: Vec<u8>)
    ensures
        bytes@ == spec_compact(value),
{
    parity_scale_codec::Encode::encode(&parity_scale_codec::Compact(value))
}

/// `Decode::decode` of the SCALE codec for `Compact<u64>` on a slice of
/// bytes: the number whose compact form the bytes start with, and how many
/// bytes are left behind that form. Its source fails where the bytes end
/// too early, where the number is not in its shortest form and where the
/// first byte announces more than eight bytes, and nowhere else.
#[verifier::external_body]
fn compact_number(input: &[u8]) -> (number: Option<(u64, usize)>)
    ensures
        number is None ==> spec_decode_compact(input@) is None,
        number matches Some((value, left)) ==> left <= input@.len() && spec_decode_compact(input@)
            == Some((value, (input@.len() - left) as nat)),
{
    let mut rest = input;
    match <parity_scale_codec::Compact<u64> as parity_scale_codec::Decode>::decode(&mut rest) {
        Ok(compact) => Some((compact.0, rest.len())),
        Err(_) => None,
    }
}

/// Appends the compact form of `value` to the output.
pub fn encode_compact(value: u64, output: &mut Vec<u8>)
    ensures
        final(output)@ == old(output)@ + spec_compact(value),
{
    let mut bytes = compact_bytes(value);
    output.append(&mut bytes);
}

/// Reads the number whose compact form the input starts with, and the
/// length of that form.
pub fn decode_compact(input: &[u8]) -> (decoded: Result<(u64, usize), DecodeError>)
    ensures
        match decoded {
            Ok((value, used)) => spec_decode_compact(input@) == Some((value, used as nat)),
            Err(error) => error == DecodeError::Count && spec_decode_compact(input@) is None,
        },
{
    match compact_number(input) {
        Some((value, left)) => Ok((value, input.len() - left)),
        None => Err(DecodeError::Count),
    }
}

/// The wire format of a bucket vector of bytes: their number in compact
/// form, then the bytes.
pub open spec fn spec_encode(elements: Seq<u8>) -> Seq<u8> {
    spec_compact(elements.len() as u64) + elements
}

/// The elements of the bucket vector whose wire format the bytes start
/// with, and the length of that format; or why they start with none.
pub open spec fn spec_decode<C: BucketVecConfig>(input: Seq<u8>) -> Result<
    (Seq<u8>, nat),
    DecodeError,
> {
    match spec_decode_compact(input) {
        None => Err(DecodeError::Count),
        Some((count, used)) => {
            if input.len() - used < count {
                Err(DecodeError::UnexpectedEnd)
            } else if !spec_supports::<C>(count as nat) {
                Err(DecodeError::Unsupported)
            } else {
                Ok((input.subrange(used as int, used + count), (used + count) as nat))
            }
        },
    }
}

/// Round trip of the wire format: bytes that start with the wire format of
/// a bucket vector decode to the elements of that bucket vector and the
/// length of the format, if the configuration supports that many elements.
pub proof fn lemma_round_trip<C: BucketVecConfig>(elements: Seq<u8>, rest: Seq<u8>)
    requires
        elements.len() <= u64::MAX,
        spec_supports::<C>(elements.len()),
    ensures
        spec_decode::<C>(spec_encode(elements) + rest) == Ok::<(Seq<u8>, nat), DecodeError>(
            (elements, spec_encode(elements).len()),
        ),
{
    let count = elements.len() as u64;
    let form = spec_compact(count);
    let input = spec_encode(elements) + rest;
    lemma_compact_round_trip(count, elements + rest);
    assert(input =~= form + (elements + rest));
    assert(input.subrange(form.len() as int, form.len() + count) =~= elements);
}

impl<C: BucketVecConfig> BucketVec<u8, C> {
    /// Round trip of the codec: what `encode_to` appends for a bucket
    /// vector, followed by any bytes, is decoded by `decode` for the same
    /// configuration to the elements of that bucket vector.
    pub proof fn lemma_codec_round_trip(&self, rest: Seq<u8>)
        requires
            self.wf(),
        ensures
            spec_decode::<C>(spec_encode(self@) + rest) == Ok::<(Seq<u8>, nat), DecodeError>(
                (self@, spec_encode(self@).len()),
            ),
    {
        self.lemma_layout();
        self.lemma_len_fits();
        lemma_round_trip::<C>(self@, rest);
    }

    /// Appends the wire format of the bucket vector to the output.
    pub fn encode_to(&self, output: &mut Vec<u8>)
        requires
            self.wf(),
        ensures
            final(output)@ == old(output)@ + spec_encode(self@),
    {
        encode_compact(self.len() as u64, output);
        let mut iter = self.iter();
        let ghost head = output@;
        loop
            invariant
                head == old(output)@ + spec_compact(self@.len() as u64),
                head + self@ == output@ + iter.elements(),
            ensures
                output@ == head + self@,
            decreases iter.elements().len(),
        {
            let ghost left = iter.elements();
            let ghost before = output@;
            match iter.next() {
                Some(element) => {
                    output.push(*element);
                    proof {
                        assert(before + left =~= output@ + left.drop_first());
                    }
                },
                None => {
                    proof {
                        assert(before + left =~= before);
                    }
                    break ;
                },
            }
        }
        proof {
            assert(head + self@ =~= old(output)@ + spec_encode(self@));
        }
    }

    /// Reads the bucket vector whose wire format the input starts with, and
    /// the length of that format.
    pub fn decode(input: &[u8]) -> (decoded: Result<(Self, usize), DecodeError>)
        requires
            valid_config::<C>(),
        ensures
            match decoded {
                Ok((vec, used)) => vec.wf() && spec_decode::<C>(input@) == Ok::<
                    (Seq<u8>, nat),
                    DecodeError,
                >((vec@, used as nat)),
                Err(error) => spec_decode::<C>(input@) == Err::<(Seq<u8>, nat), DecodeError>(
                    error,
                ),
            },
    {
        let (count, used) = match decode_compact(input) {
            Ok(number) => number,
            Err(error) => {
                return Err(error);
            },
        };
        if ((input.len() - used) as u64) < count {
            return Err(DecodeError::UnexpectedEnd);
        }
        let count: usize = count as usize;
        let len = input.len();
        let mut vec = Self::new();
        let mut done: usize = 0;
        proof {
            assert(input@.subrange(used as int, used + done) =~= Seq::<u8>::empty());
            crate::config::lemma_supports_nothing::<C>();
        }
        while done < count
            invariant
                valid_config::<C>(),
                vec.wf(),
                done <= count,
                used + count <= input@.len() == len,
                spec_decode_compact(input@) == Some((count as u64, used as nat)),
                vec@ == input@.subrange(used as int, used + done),
                spec_supports::<C>(done as nat),
            decreases count - done,
        {
            assert(vec@.len() == done);
            match vec.try_push(input[used + done]) {
                Ok(()) => {
                    proof {
                        assert(input@.subrange(used as int, used + done).push(input@[used + done])
                            =~= input@.subrange(used as int, used + done + 1));
                    }
                },
                Err(_) => {
                    proof {
                        if spec_supports::<C>(count as nat) {
                            lemma_supports_below::<C>((done + 1) as nat, count as nat);
                        }
                    }
                    return Err(DecodeError::Unsupported);
                },
            }
            done = done + 1;
        }
        Ok((vec, used + count))
    }
}

} // verus!
