//! Conversions between bytes, 32-bit words and sequences of bits.
//!
//! A bit is a `u8` that is 0 or 1. A bit sequence is read most significant
//! bit first: in a sequence that stands for a `width`-bit number, the bit at
//! index `i` has weight `2^(width - 1 - i)`, whatever the sequence's length.

use vstd::arithmetic::div_mod::{lemma_basic_div, lemma_div_denominator};
use vstd::arithmetic::power2::{lemma2_to64, lemma_pow2_pos, lemma_pow2_unfold, pow2};
use vstd::bits::{
    lemma_u32_shl_is_mul, lemma_u32_shr_is_div, lemma_u8_shl_is_mul, lemma_u8_shr_is_div,
};
use vstd::prelude::*;
use vstd::slice::{slice_subrange, slice_to_vec};

verus! {

/// Every element of `bits` is 0 or 1.
pub open spec fn is_bits(bits: Seq<u8>) -> bool {
    forall|i: int| 0 <= i < bits.len() ==> bits[i] <= 1
}

/// The binary digit of `value` that has weight `2^pos`.
pub open spec fn bit_at(value: nat, pos: nat) -> u8 {
    ((value / pow2(pos)) % 2) as u8
}

/// The lowest `width` binary digits of `value`, most significant first.
pub open spec fn bits_of(value: nat, width: nat) -> Seq<u8> {
    Seq::new(width, |i: int| bit_at(value, (width - 1 - i) as nat))
}

/// The number that `bits` stands for in a `width`-bit field: the sum of
/// `bits[i] * 2^(width - 1 - i)` over its indices. A sequence shorter than
/// `width` fills the high end of the field.
pub open spec fn value_of(bits: Seq<u8>, width: nat) -> nat
    decreases bits.len(),
{
    if bits.len() == 0 {
        0
    } else {
        value_of(bits.drop_last(), width) + bits.last() as nat * pow2(
            (width - bits.len()) as nat,
        )
    }
}

/// The lowest bit of each byte, in order.
pub open spec fn lsb_bits(bytes: Seq<u8>) -> Seq<u8> {
    Seq::new(bytes.len(), |i: int| (bytes[i] % 2) as u8)
}

/// The `j`-th group of eight bits of `bits`. The last group holds what is
/// left, which may be fewer than eight.
pub open spec fn chunk(bits: Seq<u8>, j: int) -> Seq<u8> {
    bits.subrange(
        8 * j,
        if 8 * j + 8 <= bits.len() {
            8 * j + 8
        } else {
            bits.len() as int
        },
    )
}

/// One byte for each group of eight bits, a short last group filling the
/// high bits of its byte.
pub open spec fn packed_bytes(bits: Seq<u8>) -> Seq<u8> {
    Seq::new(((bits.len() + 7) / 8) as nat, |j: int| value_of(chunk(bits, j), 8) as u8)
}

/// The bits of each byte in order, eight per byte, most significant first.
pub open spec fn bytes_bits(bytes: Seq<u8>) -> Seq<u8> {
    Seq::new(8 * bytes.len(), |k: int| bit_at(bytes[k / 8] as nat, (7 - k % 8) as nat))
}

/// A bit times a weight is the weight or nothing.
pub proof fn lemma_bit_weight(bit: u8, weight: nat)
    by (nonlinear_arith)
    requires
        bit <= 1,
    ensures
        bit as nat * weight == if bit == 1 {
            weight
        } else {
            0
        },
{
}

/// Reading one more bit adds that bit's weight.
pub proof fn lemma_value_of_step(bits: Seq<u8>, n: int, width: nat)
    requires
        0 <= n < bits.len(),
    ensures
        value_of(bits.take(n + 1), width) == value_of(bits.take(n), width) + bits[n] as nat * pow2(
            (width - n - 1) as nat,
        ),
{
    assert(bits.take(n + 1).drop_last() =~= bits.take(n));
}

/// The first `k` bits of a `width`-bit number stand for that number with
/// its lowest `width - k` digits cleared.
pub proof fn lemma_value_of_prefix(value: nat, width: nat, k: nat)
    requires
        k <= width,
        value < pow2(width),
    ensures
        value_of(bits_of(value, width).take(k as int), width) == (value / pow2(
            (width - k) as nat,
        )) * pow2((width - k) as nat),
    decreases k,
{
    let bits = bits_of(value, width);
    if k == 0 {
        lemma_basic_div(value as int, pow2(width) as int);
        assert(0 * pow2(width) == 0);
    } else {
        let weight = pow2((width - k) as nat);
        let upper = value / weight;
        lemma_value_of_prefix(value, width, (k - 1) as nat);
        lemma_value_of_step(bits, k - 1, width);
        lemma_pow2_pos((width - k) as nat);
        lemma_pow2_unfold((width - k + 1) as nat);
        lemma_div_denominator(value as int, weight as int, 2);
        assert(pow2((width - (k - 1)) as nat) == weight * 2);
        assert(value / (weight * 2) == upper / 2);
        assert(bits[k - 1] == upper % 2);
        assert((upper / 2) * (weight * 2) + (upper % 2) * weight == upper * weight)
            by (nonlinear_arith)
            requires
                upper == 2 * (upper / 2) + upper % 2,
        ;
    }
}

/// Laying a number out as `width` bits and reading the bits back gives the
/// number, when it fits in `width` bits.
pub proof fn lemma_bits_round_trip(value: nat, width: nat)
    requires
        value < pow2(width),
    ensures
        value_of(bits_of(value, width), width) == value,
{
    lemma_value_of_prefix(value, width, width);
    lemma2_to64();
    assert(bits_of(value, width).take(width as int) =~= bits_of(value, width));
    assert(pow2((width - width) as nat) == 1);
    assert((value / 1) * 1 == value);
}

/// A bit sequence that does not fill its field stands for less than the
/// weight of the last bit it has.
pub proof fn lemma_value_of_bound(bits: Seq<u8>, width: nat)
    requires
        is_bits(bits),
        bits.len() <= width,
    ensures
        value_of(bits, width) + pow2((width - bits.len()) as nat) <= pow2(width),
    decreases bits.len(),
{
    if bits.len() > 0 {
        lemma_value_of_bound(bits.drop_last(), width);
        lemma_pow2_unfold((width - bits.len() + 1) as nat);
        lemma_bit_weight(bits.last(), pow2((width - bits.len()) as nat));
    }
}

/// Widening the field by one bit doubles what a bit sequence stands for.
pub proof fn lemma_value_of_widen(bits: Seq<u8>, width: nat)
    requires
        bits.len() <= width,
    ensures
        value_of(bits, width + 1) == 2 * value_of(bits, width),
    decreases bits.len(),
{
    if bits.len() > 0 {
        let weight = pow2((width - bits.len()) as nat);
        let last = bits.last() as nat;
        lemma_value_of_widen(bits.drop_last(), width);
        lemma_pow2_unfold((width + 1 - bits.len()) as nat);
        assert(last * (2 * weight) == 2 * (last * weight)) by (nonlinear_arith);
    }
}

/// Reading `width` bits as a number and laying the number out as `width`
/// bits gives the bits back.
pub proof fn lemma_value_round_trip(bits: Seq<u8>, width: nat)
    requires
        is_bits(bits),
        bits.len() == width,
    ensures
        bits_of(value_of(bits, width), width) == bits,
    decreases width,
{
    if width > 0 {
        let front = bits.drop_last();
        let half = value_of(front, (width - 1) as nat);
        let value = value_of(bits, width);
        lemma_value_round_trip(front, (width - 1) as nat);
        lemma_value_of_widen(front, (width - 1) as nat);
        lemma2_to64();
        assert(value == 2 * half + bits.last());
        assert forall|i: int| 0 <= i < width implies bit_at(value, (width - 1 - i) as nat)
            == bits[i] by {
            let pos = (width - 1 - i) as nat;
            if pos > 0 {
                let below = pow2((pos - 1) as nat);
                lemma_pow2_pos((pos - 1) as nat);
                lemma_pow2_unfold(pos);
                lemma_div_denominator(value as int, 2, below as int);
                assert(value / 2 == half);
                assert(value / pow2(pos) == half / below);
                assert(bits_of(half, (width - 1) as nat)[i] == bit_at(half, (pos - 1) as nat));
                assert(front[i] == bits[i]);
            } else {
                assert(pow2(pos) == 1);
                assert(value / 1 == value);
            }
        }
    }
    assert(bits_of(value_of(bits, width), width) =~= bits);
}

/// Every byte survives the trip through its eight bits.
pub proof fn lemma_byte_round_trip(byte: u8)
    ensures
        value_of(bits_of(byte as nat, 8), 8) == byte,
{
    lemma2_to64();
    lemma_bits_round_trip(byte as nat, 8);
}

/// Every 32-bit word survives the trip through its thirty-two bits.
pub proof fn lemma_u32_round_trip(word: u32)
    ensures
        value_of(bits_of(word as nat, 32), 32) == word,
{
    lemma2_to64();
    lemma_bits_round_trip(word as nat, 32);
}

/// The bits of a byte sequence are the bits of its bytes, one after another.
pub proof fn lemma_bytes_bits_push(bytes: Seq<u8>, byte: u8)
    ensures
        bytes_bits(bytes.push(byte)) == bytes_bits(bytes) + bits_of(byte as nat, 8),
{
    assert(bytes_bits(bytes.push(byte)) =~= bytes_bits(bytes) + bits_of(byte as nat, 8));
}

/// In the bits of a byte sequence, the `j`-th group of eight is the bits
/// of the `j`-th byte.
pub proof fn lemma_bytes_bits_chunk(bytes: Seq<u8>, j: int)
    requires
        0 <= j < bytes.len(),
    ensures
        chunk(bytes_bits(bytes), j) == bits_of(bytes[j] as nat, 8),
{
    assert(chunk(bytes_bits(bytes), j) =~= bits_of(bytes[j] as nat, 8));
}

/// Packing the bits of a byte sequence gives the byte sequence back.
pub proof fn lemma_pack_unpack(bytes: Seq<u8>)
    ensures
        packed_bytes(bytes_bits(bytes)) == bytes,
{
    let packed = packed_bytes(bytes_bits(bytes));
    assert forall|j: int| 0 <= j < bytes.len() implies packed[j] == bytes[j] by {
        lemma_bytes_bits_chunk(bytes, j);
        lemma_byte_round_trip(bytes[j]);
    }
    assert(packed =~= bytes);
}

/// Unpacking the bytes packed from whole groups of eight bits gives the
/// bits back.
pub proof fn lemma_unpack_pack(bits: Seq<u8>)
    requires
        is_bits(bits),
        bits.len() % 8 == 0,
    ensures
        bytes_bits(packed_bytes(bits)) == bits,
{
    let bytes = packed_bytes(bits);
    assert forall|k: int| 0 <= k < bits.len() implies bytes_bits(bytes)[k] == bits[k] by {
        let group = chunk(bits, k / 8);
        lemma_value_of_bound(group, 8);
        lemma_value_round_trip(group, 8);
        lemma2_to64();
        assert(bits_of(value_of(group, 8), 8)[k % 8] == group[k % 8]);
    }
    assert(bytes_bits(bytes) =~= bits);
}

/// Namespace of the bit and byte conversions.
pub struct BitUtils {}

impl BitUtils {
    /// The eight bits of `byte`, most significant first.
    pub fn byte_to_bit(byte: u8) -> (bits: Vec<u8>)
        ensures
            bits@ == bits_of(byte as nat, 8),
    {
        let mut bits: Vec<u8> = Vec::new();
        let mut i: u8 = 0;
        while i < 8
            invariant
                i <= 8,
                bits@.len() == i,
                forall|k: int| 0 <= k < i ==> bits@[k] == bit_at(byte as nat, (7 - k) as nat),
            decreases 8 - i,
        {
            let shift: u8 = 7 - i;
            let bit: u8 = (byte >> shift) & 1;
            proof {
                lemma_u8_shr_is_div(byte, shift);
                let shifted: u8 = byte >> shift;
                assert(shifted & 1 == shifted % 2) by (bit_vector);
            }
            bits.push(bit);
            i = i + 1;
        }
        bits
    }

    /// The thirty-two bits of `byte`, most significant first.
    pub fn byte_u32_to_bit(byte: u32) -> (bits: Vec<u8>)
        ensures
            bits@ == bits_of(byte as nat, 32),
    {
        let mut bits: Vec<u8> = Vec::new();
        let mut i: u32 = 0;
        while i < 32
            invariant
                i <= 32,
                bits@.len() == i,
                forall|k: int| 0 <= k < i ==> bits@[k] == bit_at(byte as nat, (31 - k) as nat),
            decreases 32 - i,
        {
            let shift: u32 = 31 - i;
            let low: u32 = (byte >> shift) & 1;
            proof {
                lemma_u32_shr_is_div(byte, shift);
                let shifted: u32 = byte >> shift;
                assert(shifted & 1 == shifted % 2) by (bit_vector);
            }
            bits.push(low as u8);
            i = i + 1;
        }
        bits
    }

    /// The byte that at most eight bits stand for, the first bit weighing 128.
    pub fn byte_to_decimal(byte: Vec<u8>) -> (value: u8)
        requires
            byte@.len() <= 8,
            is_bits(byte@),
        ensures
            value == value_of(byte@, 8),
    {
        let mut value: u8 = 0;
        let mut i: usize = 0;
        proof {
            lemma2_to64();
        }
        while i < byte.len()
            invariant
                i <= byte@.len() <= 8,
                is_bits(byte@),
                value == value_of(byte@.take(i as int), 8),
                value + pow2((8 - i) as nat) <= 256,
            decreases byte@.len() - i,
        {
            let shift: u8 = (7 - i) as u8;
            let bit: u8 = byte[i];
            proof {
                lemma_pow2_unfold((8 - i) as nat);
                lemma_pow2_pos(shift as nat);
                lemma_bit_weight(bit, pow2(shift as nat));
                lemma_u8_shl_is_mul(bit, shift);
                lemma_value_of_step(byte@, i as int, 8);
            }
            value = value + (bit << shift);
            i = i + 1;
        }
        assert(byte@.take(byte@.len() as int) =~= byte@);
        value
    }

    /// The word that at most thirty-two bits stand for, the first bit
    /// weighing `2^31`.
    pub fn byte_u32_to_decimal(byte: Vec<u8>) -> (value: u32)
        requires
            byte@.len() <= 32,
            is_bits(byte@),
        ensures
            value == value_of(byte@, 32),
    {
        let mut value: u32 = 0;
        let mut i: usize = 0;
        proof {
            lemma2_to64();
        }
        while i < byte.len()
            invariant
                i <= byte@.len() <= 32,
                is_bits(byte@),
                value == value_of(byte@.take(i as int), 32),
                value + pow2((32 - i) as nat) <= 0x1_0000_0000,
            decreases byte@.len() - i,
        {
            let shift: u32 = (31 - i) as u32;
            let bit: u8 = byte[i];
            proof {
                lemma_pow2_unfold((32 - i) as nat);
                lemma_pow2_pos(shift as nat);
                lemma_bit_weight(bit, pow2(shift as nat));
                lemma_u32_shl_is_mul(bit as u32, shift);
                lemma_value_of_step(byte@, i as int, 32);
            }
            value = value + ((bit as u32) << shift);
            i = i + 1;
        }
        assert(byte@.take(byte@.len() as int) =~= byte@);
        value
    }

    /// The lowest bit of each byte of `bytes`, in order.
    pub fn read_lsb(bytes: Vec<u8>) -> (bits: Vec<u8>)
        ensures
            bits@ == lsb_bits(bytes@),
    {
        let mut bits: Vec<u8> = Vec::new();
        let mut i: usize = 0;
        while i < bytes.len()
            invariant
                i <= bytes@.len(),
                bits@.len() == i,
                forall|k: int| 0 <= k < i ==> bits@[k] == bytes@[k] % 2,
            decreases bytes@.len() - i,
        {
            bits.push(bytes[i] % 2);
            i = i + 1;
        }
        bits
    }

    /// Packs bits into bytes, eight at a time. A last group of fewer than
    /// eight bits fills the high bits of the last byte.
    pub fn bits_to_bytes(bits: Vec<u8>) -> (bytes: Vec<u8>)
        requires
            is_bits(bits@),
        ensures
            bytes@ == packed_bytes(bits@),
    {
        let len = bits.len();
        let mut bytes: Vec<u8> = Vec::new();
        let mut start: usize = 0;
        while start < len
            invariant
                len == bits@.len(),
                is_bits(bits@),
                8 * bytes@.len() < len + 8,
                start == if 8 * bytes@.len() <= len {
                    8 * bytes@.len()
                } else {
                    len as nat
                },
                forall|j: int|
                    0 <= j < bytes@.len() ==> bytes@[j] == value_of(chunk(bits@, j), 8) as u8,
            decreases len - start,
        {
            let end = if len - start >= 8 {
                start + 8
            } else {
                len
            };
            let group = slice_to_vec(slice_subrange(bits.as_slice(), start, end));
            assert(group@ == chunk(bits@, bytes@.len() as int));
            let byte = Self::byte_to_decimal(group);
            bytes.push(byte);
            start = end;
        }
        assert(bytes@ =~= packed_bytes(bits@));
        bytes
    }

    /// Unpacks bytes into bits, eight per byte, most significant first.
    pub fn make_bits(bytes: Vec<u8>) -> (bits: Vec<u8>)
        ensures
            bits@ == bytes_bits(bytes@),
    {
        let mut bits: Vec<u8> = Vec::new();
        let mut i: usize = 0;
        while i < bytes.len()
            invariant
                i <= bytes@.len(),
                bits@ == bytes_bits(bytes@.take(i as int)),
            decreases bytes@.len() - i,
        {
            let mut group = Self::byte_to_bit(bytes[i]);
            proof {
                lemma_bytes_bits_push(bytes@.take(i as int), bytes@[i as int]);
                assert(bytes@.take(i as int).push(bytes@[i as int]) =~= bytes@.take(i + 1));
            }
            bits.append(&mut group);
            i = i + 1;
        }
        assert(bytes@.take(bytes@.len() as int) =~= bytes@);
        bits
    }
}

} // verus!
