//! Variable-length encoding of unsigned 64-bit integers.
//!
//! A value is written in groups of seven bits, least significant group first.
//! Each of the first eight bytes carries one group and a continuation flag in
//! its high bit; a ninth byte, when present, carries the top eight bits raw.

use std::collections::VecDeque;
use vstd::prelude::*;

verus! {

pub struct Encoder {}

pub struct Decoder {}

const BITS_PER_BYTE: u64 = 7;

const SEVEN_BYTES_ONE_BIT: u64 = 0xFF_FF_FF_FF_FF_FF_FF_80;

const SEVEN_BITS: u64 = 0b0111_1111;

const HAS_NEXT: u8 = 0b1000_0000;

/// Number of flagged seven-bit groups an encoding may hold before the raw byte.
pub open spec fn max_groups() -> nat {
    8
}

/// `128^groups`: the weight of the group that follows `groups` earlier ones.
pub open spec fn group_weight(groups: nat) -> nat
    decreases groups,
{
    if groups == 0 {
        1
    } else {
        128 * group_weight((groups - 1) as nat)
    }
}

/// The bytes that stand for `value` when `groups` flagged groups may still be
/// written: the last permitted byte is raw, every earlier one carries seven
/// bits and is flagged exactly when more follows.
pub open spec fn encode_groups(value: nat, groups: nat) -> Seq<u8>
    decreases groups,
{
    if groups == 0 || value < 128 {
        seq![(value % 256) as u8]
    } else {
        seq![(value % 128 + 128) as u8] + encode_groups(value / 128, (groups - 1) as nat)
    }
}

/// The number that a byte sequence stands for when `groups` flagged groups may
/// still be read. Input that ends early stands for what was read so far.
pub open spec fn decode_groups(data: Seq<u8>, groups: nat) -> nat
    decreases groups,
{
    if data.len() == 0 {
        0
    } else if groups == 0 || data[0] < 128 {
        data[0] as nat
    } else {
        (data[0] - 128) as nat + 128 * decode_groups(data.drop_first(), (groups - 1) as nat)
    }
}

/// How many leading bytes of `data` a decoder reads when `groups` flagged
/// groups may still be read.
pub open spec fn consumed_groups(data: Seq<u8>, groups: nat) -> nat
    decreases groups,
{
    if data.len() == 0 {
        0
    } else if groups == 0 || data[0] < 128 {
        1
    } else {
        1 + consumed_groups(data.drop_first(), (groups - 1) as nat)
    }
}

/// The encoding of `value`.
pub open spec fn encoding(value: u64) -> Seq<u8> {
    encode_groups(value as nat, max_groups())
}

/// The number that `data` decodes to.
pub open spec fn decoding(data: Seq<u8>) -> nat {
    decode_groups(data, max_groups())
}

/// The number of leading bytes of `data` that decoding reads.
pub open spec fn consumed(data: Seq<u8>) -> nat {
    consumed_groups(data, max_groups())
}

/// The length of the encoding of `value`, by magnitude.
pub open spec fn encoded_length(value: u64) -> nat {
    if value < 0x80 {
        1
    } else if value < 0x4000 {
        2
    } else if value < 0x20_0000 {
        3
    } else if value < 0x1000_0000 {
        4
    } else if value < 0x8_0000_0000 {
        5
    } else if value < 0x400_0000_0000 {
        6
    } else if value < 0x2_0000_0000_0000 {
        7
    } else if value < 0x100_0000_0000_0000 {
        8
    } else {
        9
    }
}

proof fn lemma_group_weights()
    ensures
        group_weight(0) == 1,
        group_weight(1) == 0x80,
        group_weight(2) == 0x4000,
        group_weight(3) == 0x20_0000,
        group_weight(4) == 0x1000_0000,
        group_weight(5) == 0x8_0000_0000,
        group_weight(6) == 0x400_0000_0000,
        group_weight(7) == 0x2_0000_0000_0000,
        group_weight(8) == 0x100_0000_0000_0000,
{
    reveal_with_fuel(group_weight, 10);
}

proof fn lemma_group_weight_positive(groups: nat)
    ensures
        group_weight(groups) >= 1,
    decreases groups,
{
    if groups > 0 {
        lemma_group_weight_positive((groups - 1) as nat);
    }
}

/// Decoding never reads past the input, and reads at most one byte per group
/// and one raw byte.
pub proof fn lemma_consumed_bounds(data: Seq<u8>, groups: nat)
    ensures
        consumed_groups(data, groups) <= data.len(),
        consumed_groups(data, groups) <= groups + 1,
    decreases groups,
{
    if data.len() > 0 && groups > 0 && data[0] >= 128 {
        lemma_consumed_bounds(data.drop_first(), (groups - 1) as nat);
    }
}

/// What `groups` flagged groups and a raw byte decode to stays below
/// `256 * 128^groups`.
pub proof fn lemma_decode_bound(data: Seq<u8>, groups: nat)
    ensures
        decode_groups(data, groups) < 256 * group_weight(groups),
    decreases groups,
{
    lemma_group_weight_positive(groups);
    if data.len() > 0 && groups > 0 && data[0] >= 128 {
        lemma_decode_bound(data.drop_first(), (groups - 1) as nat);
    }
}

/// Every byte sequence decodes to a number that fits in 64 bits.
pub proof fn lemma_decoding_fits(data: Seq<u8>)
    ensures
        decoding(data) <= u64::MAX,
{
    lemma_decode_bound(data, max_groups());
    lemma_group_weights();
}

/// A value below `256 * 128^groups` is recovered from its encoding, whatever
/// bytes follow the encoding, and decoding reads the encoding and no more.
pub proof fn lemma_decode_encode_groups(value: nat, groups: nat, rest: Seq<u8>)
    requires
        value < 256 * group_weight(groups),
    ensures
        decode_groups(encode_groups(value, groups) + rest, groups) == value,
        consumed_groups(encode_groups(value, groups) + rest, groups) == encode_groups(
            value,
            groups,
        ).len(),
    decreases groups,
{
    let bytes = encode_groups(value, groups);
    let data = bytes + rest;
    if groups == 0 || value < 128 {
        assert(data[0] == bytes[0]);
    } else {
        let tail = encode_groups(value / 128, (groups - 1) as nat);
        assert(data[0] == bytes[0]);
        assert(data.drop_first() =~= tail + rest);
        lemma_decode_encode_groups(value / 128, (groups - 1) as nat, rest);
    }
}

/// Decoding the encoding of a value gives the value back, for every 64-bit
/// value, and reads exactly the bytes of the encoding.
pub proof fn lemma_decode_encode(value: u64)
    ensures
        decoding(encoding(value)) == value,
        consumed(encoding(value)) == encoding(value).len(),
{
    lemma_group_weights();
    lemma_decode_encode_groups(value as nat, max_groups(), Seq::empty());
    assert(encoding(value) + Seq::<u8>::empty() =~= encoding(value));
}

/// No two values share an encoding.
pub proof fn lemma_encoding_injective(a: u64, b: u64)
    requires
        encoding(a) == encoding(b),
    ensures
        a == b,
{
    lemma_decode_encode(a);
    lemma_decode_encode(b);
}

/// Bytes that follow an encoding do not change what it decodes to.
pub proof fn lemma_decode_encode_padded(value: u64, padding: Seq<u8>)
    ensures
        decoding(encoding(value) + padding) == value,
        consumed(encoding(value) + padding) == encoding(value).len(),
{
    lemma_group_weights();
    lemma_decode_encode_groups(value as nat, max_groups(), padding);
}

proof fn lemma_encode_groups_len(value: nat, groups: nat)
    ensures
        1 <= encode_groups(value, groups).len() <= groups + 1,
        value < 128 ==> encode_groups(value, groups).len() == 1,
        groups > 0 && value >= 128 ==> encode_groups(value, groups).len() == 1 + encode_groups(
            value / 128,
            (groups - 1) as nat,
        ).len(),
    decreases groups,
{
    if groups > 0 && value >= 128 {
        lemma_encode_groups_len(value / 128, (groups - 1) as nat);
    }
}

proof fn lemma_encode_groups_monotone(low: nat, high: nat, groups: nat)
    requires
        low <= high,
    ensures
        encode_groups(low, groups).len() <= encode_groups(high, groups).len(),
    decreases groups,
{
    lemma_encode_groups_len(low, groups);
    lemma_encode_groups_len(high, groups);
    if groups > 0 && low >= 128 {
        lemma_encode_groups_monotone(low / 128, high / 128, (groups - 1) as nat);
    }
}

/// An encoding is between one and nine bytes long, and one byte long exactly
/// for the values below 128.
pub proof fn lemma_encoding_length_bounds(value: u64)
    ensures
        1 <= encoding(value).len() <= 9,
        encoding(value).len() == 1 <==> value < 128,
{
    lemma_encode_groups_len(value as nat, max_groups());
}

/// A larger value never has a shorter encoding.
pub proof fn lemma_encoding_length_monotone(low: u64, high: u64)
    requires
        low <= high,
    ensures
        encoding(low).len() <= encoding(high).len(),
{
    lemma_encode_groups_monotone(low as nat, high as nat, max_groups());
}

/// The length of an encoding is the number of seven-bit groups that the value
/// needs, with nine bytes for every value of more than 56 bits.
pub proof fn lemma_encoding_length(value: u64)
    ensures
        encoding(value).len() == encoded_length(value),
{
    let v0 = value as nat;
    let v1 = v0 / 128;
    let v2 = v1 / 128;
    let v3 = v2 / 128;
    let v4 = v3 / 128;
    let v5 = v4 / 128;
    let v6 = v5 / 128;
    let v7 = v6 / 128;
    let v8 = v7 / 128;
    lemma_encode_groups_len(v0, 8);
    lemma_encode_groups_len(v1, 7);
    lemma_encode_groups_len(v2, 6);
    lemma_encode_groups_len(v3, 5);
    lemma_encode_groups_len(v4, 4);
    lemma_encode_groups_len(v5, 3);
    lemma_encode_groups_len(v6, 2);
    lemma_encode_groups_len(v7, 1);
    lemma_encode_groups_len(v8, 0);
}

/// Shifting a seven-bit group to its place multiplies it by the weight of the
/// place, and the outcome stays below the weight of the next place.
proof fn lemma_shifted_group(group: u64, place: u64)
    requires
        group < 128,
        place < 8,
    ensures
        (group << ((7 * place) as u64)) == group * group_weight(place as nat),
        group * group_weight(place as nat) <= 127 * group_weight(place as nat),
        group_weight((place + 1) as nat) == 128 * group_weight(place as nat),
        group_weight((place + 1) as nat) <= 0x100_0000_0000_0000,
{
    lemma_group_weights();
    let shift = (7 * place) as u64;
    assert(group < 128 ==> (shift == 0 ==> group << shift == group) && (shift == 7 ==> group
        << shift == group * 0x80) && (shift == 14 ==> group << shift == group * 0x4000) && (shift
        == 21 ==> group << shift == group * 0x20_0000) && (shift == 28 ==> group << shift == group
        * 0x1000_0000) && (shift == 35 ==> group << shift == group * 0x8_0000_0000) && (shift == 42
        ==> group << shift == group * 0x400_0000_0000) && (shift == 49 ==> group << shift == group
        * 0x2_0000_0000_0000)) by (bit_vector);
}

impl Encoder {
    /// Encodes `value` in one to nine bytes.
    pub fn encode_u64(value: u64) -> (buf: VecDeque<u8>)
        ensures
            buf@ == encoding(value),
            buf@.len() == encoded_length(value),
    {
        let mut rest: u64 = value;
        let mut buf = VecDeque::<u8>::with_capacity(9);
        let mut i: u64 = 0;
        let mut done = false;
        while i < 8 && !done
            invariant
                i <= 8,
                done ==> rest == 0 && buf@ == encoding(value),
                !done ==> encoding(value) == buf@ + encode_groups(rest as nat, (8 - i) as nat),
                !done && i > 0 ==> rest != 0,
            decreases 8 - i,
        {
            let ghost before = rest;
            let ghost written = buf@;
            let mut byte = (rest & SEVEN_BITS) as u8;
            rest = rest & SEVEN_BYTES_ONE_BIT;
            rest = rest >> BITS_PER_BYTE;
            if rest != 0 {
                byte = byte | HAS_NEXT;
            }
            buf.push_back(byte);
            if rest == 0 {
                done = true;
            }
            proof {
                assert((before & 0x7f) == before % 128) by (bit_vector);
                assert(((before & 0xFF_FF_FF_FF_FF_FF_FF_80) >> 7) == before / 128)
                    by (bit_vector);
                let low = (before & 0x7f) as u8;
                assert(low < 128 ==> (low | 0x80) == low + 128) by (bit_vector);
                let tail = encode_groups(rest as nat, (8 - i - 1) as nat);
                if rest == 0 {
                    assert(written.push(byte) =~= written + seq![byte]);
                } else {
                    assert(written.push(byte) + tail =~= written + (seq![byte] + tail));
                }
            }
            i += 1;
        }
        if rest != 0 {
            let byte: u8 = (rest & 0xFF) as u8;
            proof {
                assert((rest & 0xFF) == rest % 256) by (bit_vector);
                assert(buf@.push(byte) =~= buf@ + seq![byte]);
            }
            buf.push_back(byte);
        }
        proof {
            lemma_encoding_length(value);
        }
        buf
    }
}

impl Decoder {
    /// Decodes a value from the front of `data` and removes the bytes that
    /// were read. Input that ends early yields what was read so far.
    pub fn decode_u64(data: &mut VecDeque<u8>) -> (value: u64)
        ensures
            value == decoding(old(data)@),
            consumed(old(data)@) <= old(data)@.len(),
            final(data)@ == old(data)@.skip(consumed(old(data)@) as int),
    {
        let ghost orig = data@;
        let mut value: u64 = 0;
        let mut i: u64 = 0;
        proof {
            lemma_group_weights();
            lemma_consumed_bounds(orig, max_groups());
            assert(orig.skip(0) =~= orig);
        }
        while i < 8
            invariant
                i <= 8,
                i <= orig.len(),
                orig == old(data)@,
                data@ == orig.skip(i as int),
                value < group_weight(i as nat),
                decoding(orig) == value + group_weight(i as nat) * decode_groups(
                    data@,
                    (8 - i) as nat,
                ),
                consumed(orig) == i + consumed_groups(data@, (8 - i) as nat),
                consumed(orig) <= orig.len(),
            decreases 8 - i,
        {
            let ghost front = data@;
            match data.pop_front() {
                Some(byte) => {
                    let byte_val = byte & (SEVEN_BITS as u8);
                    let has_next = (byte & HAS_NEXT) != 0;
                    let shift: u64 = BITS_PER_BYTE * i;
                    let group = byte_val as u64;
                    proof {
                        assert((byte & 0x80) != 0 ==> byte >= 128 && (byte & 0x7f) == byte - 128)
                            by (bit_vector);
                        assert((byte & 0x80) == 0 ==> byte < 128 && (byte & 0x7f) == byte)
                            by (bit_vector);
                        lemma_shifted_group(group, i);
                        let weight = group_weight(i as nat);
                        assert(front.drop_first() =~= orig.skip(i + 1));
                        let further = decode_groups(front.drop_first(), (8 - i - 1) as nat);
                        assert(weight * (group + 128 * further) == group * weight + (128
                            * weight) * further) by (nonlinear_arith);
                        assert(weight * group == group * weight) by (nonlinear_arith);
                        assert(decode_groups(front, (8 - i) as nat) == if has_next {
                            group + 128 * further
                        } else {
                            group as int
                        });
                    }
                    value += group << shift;
                    if !has_next {
                        return value;
                    }
                },
                None => {
                    proof {
                        assert(decode_groups(front, (8 - i) as nat) == 0);
                        assert(group_weight(i as nat) * 0 == 0);
                    }
                    return value;
                },
            }
            i += 1;
        }
        let ghost front = data@;
        proof {
            lemma_group_weights();
            assert(decode_groups(front, 0) == if front.len() == 0 {
                0
            } else {
                front[0] as int
            });
            assert(group_weight(i as nat) == 0x100_0000_0000_0000);
            assert(decoding(orig) == value + 0x100_0000_0000_0000 * decode_groups(front, 0));
        }
        match data.pop_front() {
            Some(byte) => {
                let top = byte as u64;
                proof {
                    assert((top << 56) == top * 0x100_0000_0000_0000) by (bit_vector)
                        requires
                            top < 256,
                    ;
                    assert(front.drop_first() =~= orig.skip(9));
                }
                value += top << (BITS_PER_BYTE * 8);
            },
            None => {},
        }
        value
    }
}

} // verus!
