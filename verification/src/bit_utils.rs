//! Conversions between unsigned integers, big-endian runs of bits and packed
//! bytes.
//!
//! A run of bits is a sequence of `u8`, one entry per bit, the most significant
//! first. The functions here are the foundation of both binary layouts.

use crate::error::{BitUtilsError, MatterPayloadError};
use vstd::arithmetic::div_mod::*;
use vstd::arithmetic::mul::*;
use vstd::arithmetic::power2::*;
use vstd::bits::*;
use vstd::prelude::*;

verus! {

/// Bit `k` of `val`, counted from the least significant one: 0 or 1.
pub open spec fn bit_at(val: nat, k: nat) -> u8 {
    ((val / pow2(k)) % 2) as u8
}

/// `val` needs no more than `width` bits.
pub open spec fn fits_in_bits(val: nat, width: nat) -> bool {
    val < pow2(width)
}

/// `val` written as `width` bits, the most significant first. Where `val` needs
/// more bits than that, these are its lowest `width` bits.
pub open spec fn bits_of_value(val: nat, width: nat) -> Seq<u8> {
    Seq::new(width, |i: int| bit_at(val, (width - 1 - i) as nat))
}

/// The number that a run of bits spells, the most significant bit first. Of
/// each entry only the lowest bit counts.
pub open spec fn bits_value(bits: Seq<u8>) -> nat
    decreases bits.len(),
{
    if bits.len() == 0 {
        0
    } else {
        2 * bits_value(bits.drop_last()) + (bits.last() % 2) as nat
    }
}

/// Every entry of the run is 0 or 1.
pub open spec fn is_binary(bits: Seq<u8>) -> bool {
    forall|i: int| 0 <= i < bits.len() ==> bits[i] <= 1
}

/// Up to eight bits in one byte: the first bit is the highest one of the byte,
/// and the places of bits that the chunk lacks stay zero. An entry above 1
/// is shifted as it stands, and what leaves the byte is lost.
pub open spec fn packed_byte(chunk: Seq<u8>) -> u8
    recommends
        chunk.len() <= 8,
    decreases chunk.len(),
{
    if chunk.len() == 0 {
        0
    } else {
        packed_byte(chunk.drop_last()) | (chunk.last() << (8 - chunk.len()) as u8)
    }
}

/// The eight-bit chunk `index` of a run of bits; the last one may be shorter.
pub open spec fn bit_chunk(bits: Seq<u8>, index: int) -> Seq<u8> {
    bits.subrange(8 * index, if 8 * index + 8 <= bits.len() {
        8 * index + 8
    } else {
        bits.len() as int
    })
}

/// A run of bits packed into bytes, eight bits to the byte.
pub open spec fn packed_bytes(bits: Seq<u8>) -> Seq<u8> {
    Seq::new(((bits.len() + 7) / 8) as nat, |j: int| packed_byte(bit_chunk(bits, j)))
}

/// Bytes spread out into bits, eight for each byte, the highest bit first.
pub open spec fn unpacked_bits(bytes: Seq<u8>) -> Seq<u8> {
    Seq::new(8 * bytes.len(), |i: int| bit_at(bytes[i / 8] as nat, (7 - i % 8) as nat))
}

/// A shift to the right divides by a power of two, so the mask picks `bit_at`;
/// beyond bit 63 a `u64` holds nothing.
proof fn lemma_bit_at_u64(val: u64, k: nat)
    ensures
        k < 64 ==> bit_at(val as nat, k) == (val >> (k as u64)) & 1,
        k >= 64 ==> bit_at(val as nat, k) == 0,
{
    if k < 64 {
        let shifted = val >> (k as u64);
        lemma_u64_shr_is_div(val, k as u64);
        assert(shifted & 1 == shifted % 2) by (bit_vector);
    } else {
        lemma2_to64();
        lemma2_to64_rest();
        if k > 64 {
            lemma_pow2_strictly_increases(64, k);
        }
        lemma_basic_div(val as int, pow2(k) as int);
    }
}

/// A `u64` fits in `width` bits exactly if shifting it right by `width`
/// leaves nothing; it fits in any width from 64 on, and zero fits in any.
proof fn lemma_fits_u64(val: u64, width: nat)
    ensures
        width < 64 ==> (fits_in_bits(val as nat, width) <==> (val >> (width as u64)) == 0),
        width >= 64 || val == 0 ==> fits_in_bits(val as nat, width),
{
    lemma_pow2_pos(width);
    if width < 64 {
        lemma_u64_shr_is_div(val, width as u64);
        if val < pow2(width) {
            lemma_basic_div(val as int, pow2(width) as int);
        } else {
            lemma_div_non_zero(val as int, pow2(width) as int);
        }
    } else {
        lemma2_to64();
        lemma2_to64_rest();
        if width > 64 {
            lemma_pow2_strictly_increases(64, width);
        }
    }
}

/// Writes `val` as `bits_len` bits, the most significant first.
///
/// Fails with [`BitUtilsError::ValueOverflow`] where `val` needs more than
/// `bits_len` bits. Zero fits in any width, also in none at all; from bit 64
/// on the bits are zero.
pub fn u64_to_bits_be(val: u64, bits_len: usize) -> (result: Result<Vec<u8>, MatterPayloadError>)
    ensures
        match result {
            Ok(bits) => fits_in_bits(val as nat, bits_len as nat) && bits@ == bits_of_value(
                val as nat,
                bits_len as nat,
            ),
            Err(e) => !fits_in_bits(val as nat, bits_len as nat) && e
                == MatterPayloadError::BitUtils(
                BitUtilsError::ValueOverflow { value: val, bits: bits_len },
            ),
        },
{
    proof {
        lemma_fits_u64(val, bits_len as nat);
    }
    if val != 0 && bits_len < 64 && (val >> (bits_len as u64)) != 0 {
        return Err(
            MatterPayloadError::BitUtils(
                BitUtilsError::ValueOverflow { value: val, bits: bits_len },
            ),
        );
    }
    let ghost all = bits_of_value(val as nat, bits_len as nat);
    let mut bits: Vec<u8> = Vec::with_capacity(bits_len);
    let mut i: usize = bits_len;
    while i > 0
        invariant
            i <= bits_len,
            fits_in_bits(val as nat, bits_len as nat),
            all == bits_of_value(val as nat, bits_len as nat),
            bits@ == all.take(bits_len - i),
        decreases i,
    {
        i -= 1;
        let bit: u64 = if i < 64 {
            (val >> (i as u64)) & 1
        } else {
            0
        };
        proof {
            lemma_bit_at_u64(val, i as nat);
            assert(all.take(bits_len - i) == all.take(bits_len - i - 1).push(bit as u8));
        }
        bits.push(bit as u8);
    }
    assert(all.take(bits_len as int) == all);
    Ok(bits)
}

/// One more bit at the low end doubles the number and adds the bit; in a
/// `u64` the bit that leaves at the high end is lost.
proof fn lemma_shift_in_bit(acc: u64, bit: u8, value: nat)
    requires
        acc == value % pow2(64),
    ensures
        ((acc << 1) | (bit as u64 & 1)) == (2 * value + (bit % 2) as nat) % pow2(64),
{
    lemma2_to64();
    lemma2_to64_rest();
    let low: u64 = (bit % 2) as u64;
    let wide: u64 = bit as u64;
    assert(wide & 1 == wide % 2) by (bit_vector);
    assert(((acc << 1) | low) == (2 * (acc as int) + (low as int)) % 0x1_0000_0000_0000_0000)
        by (bit_vector)
        requires
            low <= 1,
    ;
    let m = pow2(64) as int;
    lemma_mul_mod_noop_right(2, value as int, m);
    lemma_add_mod_noop(2 * (value as int), low as int, m);
    lemma_add_mod_noop(2 * (acc as int), low as int, m);
    lemma_mod_twice(2 * (value as int), m);
}

/// Reads a run of bits as a number, the most significant bit first.
///
/// No bits give 0. Of each entry only the lowest bit counts. Of a run longer
/// than 64 bits the last 64 are read.
pub fn bits_to_u64_be(bits: &[u8]) -> (value: u64)
    ensures
        value == bits_value(bits@) % pow2(64),
        bits@.len() <= 64 ==> value == bits_value(bits@),
{
    let mut acc: u64 = 0;
    let mut i: usize = 0;
    proof {
        lemma2_to64_rest();
        lemma_small_mod(0, pow2(64));
    }
    while i < bits.len()
        invariant
            i <= bits.len(),
            acc == bits_value(bits@.take(i as int)) % pow2(64),
        decreases bits.len() - i,
    {
        proof {
            assert(bits@.take(i + 1).drop_last() == bits@.take(i as int));
            lemma_shift_in_bit(acc, bits[i as int], bits_value(bits@.take(i as int)));
        }
        acc = (acc << 1) | (bits[i] as u64 & 1);
        i += 1;
    }
    proof {
        assert(bits@.take(bits@.len() as int) == bits@);
        if bits@.len() <= 64 {
            lemma_bits_value_bound(bits@);
            lemma_pow2_increases(bits@.len(), 64);
            lemma_small_mod(bits_value(bits@), pow2(64));
        }
    }
    acc
}

/// A run of `n` bits spells a number below `2^n`.
pub proof fn lemma_bits_value_bound(bits: Seq<u8>)
    ensures
        bits_value(bits) < pow2(bits.len()),
    decreases bits.len(),
{
    if bits.len() == 0 {
        lemma2_to64();
    } else {
        lemma_bits_value_bound(bits.drop_last());
        lemma_pow2_unfold(bits.len());
    }
}

/// `pow2` does not fall.
proof fn lemma_pow2_increases(a: nat, b: nat)
    requires
        a <= b,
    ensures
        pow2(a) <= pow2(b),
{
    if a < b {
        lemma_pow2_strictly_increases(a, b);
    }
}

/// Packs a run of bits into bytes, eight to the byte, the first bit of each
/// eight in the highest place. Where the length is no multiple of 8, the
/// last byte is filled up with zero bits at its low end.
pub fn bits_to_bytes_be(bits: &[u8]) -> (bytes: Vec<u8>)
    ensures
        bytes@ == packed_bytes(bits@),
{
    let mut bytes: Vec<u8> = Vec::new();
    let mut start: usize = 0;
    while start < bits.len()
        invariant
            start <= bits.len(),
            start % 8 == 0 || start == bits.len(),
            bytes@ == packed_bytes(bits@).take((start + 7) / 8),
        decreases bits.len() - start,
    {
        let end: usize = if bits.len() - start >= 8 {
            start + 8
        } else {
            bits.len()
        };
        let ghost chunk = bit_chunk(bits@, start as int / 8);
        let mut acc: u8 = 0;
        let mut i: usize = 0;
        while start + i < end
            invariant
                start < end <= bits.len(),
                end <= start + 8,
                start + i <= end,
                chunk == bits@.subrange(start as int, end as int),
                acc == packed_byte(chunk.take(i as int)),
            decreases end - start - i,
        {
            proof {
                assert(chunk.take(i + 1).drop_last() == chunk.take(i as int));
            }
            acc = acc | (bits[start + i] << (7 - i) as u8);
            i += 1;
        }
        proof {
            assert(chunk.take(i as int) == chunk);
            let done = packed_bytes(bits@);
            assert(done.take(start as int / 8 + 1) == done.take(start as int / 8).push(acc));
        }
        bytes.push(acc);
        start = end;
    }
    assert(packed_bytes(bits@).take((bits@.len() + 7) as int / 8) == packed_bytes(bits@));
    bytes
}

/// In a byte, too, a shift and a mask pick `bit_at`.
proof fn lemma_bit_at_u8(byte: u8, k: nat)
    requires
        k < 8,
    ensures
        bit_at(byte as nat, k) == (byte >> (k as u8)) & 1,
{
    let shifted = byte >> (k as u8);
    lemma_u8_shr_is_div(byte, k as u8);
    assert(shifted & 1 == shifted % 2) by (bit_vector);
}

/// Spreads bytes out into bits, eight for each byte, the highest bit first.
/// The inverse of [`bits_to_bytes_be`] on runs of whole bytes.
pub fn bytes_to_bits_be(bytes: &[u8]) -> (bits: Vec<u8>)
    ensures
        bits@ == unpacked_bits(bytes@),
        bits@.len() == 8 * bytes@.len(),
{
    let ghost all = unpacked_bits(bytes@);
    let mut bits: Vec<u8> = Vec::new();
    let mut j: usize = 0;
    while j < bytes.len()
        invariant
            j <= bytes.len(),
            all == unpacked_bits(bytes@),
            bits@ == all.take(8 * j),
        decreases bytes.len() - j,
    {
        let byte = bytes[j];
        let mut k: usize = 8;
        while k > 0
            invariant
                k <= 8,
                j < bytes.len(),
                byte == bytes[j as int],
                all == unpacked_bits(bytes@),
                bits@ == all.take(8 * j + 8 - k),
            decreases k,
        {
            k -= 1;
            proof {
                lemma_bit_at_u8(byte, k as nat);
                let at = 8 * j + 7 - k;
                assert(at / 8 == j && at % 8 == 7 - k);
                assert(all.take(at + 1) == all.take(at).push((byte >> (k as u8)) & 1));
            }
            bits.push((byte >> (k as u8)) & 1);
        }
        j += 1;
    }
    assert(all.take(8 * bytes@.len() as int) == all);
    bits
}

/// Bit `k` of `val / 2^shift` is bit `shift + k` of `val`.
pub proof fn lemma_bit_at_shifted(val: nat, shift: nat, k: nat)
    ensures
        bit_at(val / pow2(shift), k) == bit_at(val, shift + k),
{
    lemma_pow2_pos(shift);
    lemma_pow2_pos(k);
    lemma_pow2_adds(shift, k);
    lemma_div_denominator(val as int, pow2(shift) as int, pow2(k) as int);
}

/// The bits from `from` up to `to` of a number written in `width` bits are
/// the number without its lowest `width - to` bits, written in `to - from`
/// bits.
pub proof fn lemma_bits_of_value_subrange(val: nat, width: nat, from: nat, to: nat)
    requires
        from <= to <= width,
    ensures
        bits_of_value(val, width).subrange(from as int, to as int) == bits_of_value(
            val / pow2((width - to) as nat),
            (to - from) as nat,
        ),
{
    let left = bits_of_value(val, width).subrange(from as int, to as int);
    let right = bits_of_value(val / pow2((width - to) as nat), (to - from) as nat);
    assert forall|i: int| 0 <= i < to - from implies left[i] == right[i] by {
        lemma_bit_at_shifted(val, (width - to) as nat, (to - from - 1 - i) as nat);
    }
    assert(left =~= right);
}

/// A number written in bits and read again is the number, but for what did
/// not fit in the width.
pub proof fn lemma_bits_value_of_value(val: nat, width: nat)
    ensures
        bits_value(bits_of_value(val, width)) == val % pow2(width),
        fits_in_bits(val, width) ==> bits_value(bits_of_value(val, width)) == val,
    decreases width,
{
    lemma2_to64();
    if width > 0 {
        let bits = bits_of_value(val, width);
        let rest = (width - 1) as nat;
        lemma_bits_of_value_subrange(val, width, 0, rest);
        assert(bits.drop_last() == bits.subrange(0, rest as int));
        lemma_bits_value_of_value(val / 2, rest);
        lemma_pow2_pos(rest);
        lemma_pow2_unfold(width);
        lemma_breakdown(val as int, 2, pow2(rest) as int);
        assert(val / pow2(0) == val);
    }
    if fits_in_bits(val, width) {
        lemma_small_mod(val, pow2(width));
    }
}

/// Run after run: the first run stands in the higher places.
pub proof fn lemma_bits_value_concat(high: Seq<u8>, low: Seq<u8>)
    ensures
        bits_value(high + low) == bits_value(high) * pow2(low.len()) + bits_value(low),
    decreases low.len(),
{
    lemma2_to64();
    if low.len() == 0 {
        assert(high + low == high);
    } else {
        assert((high + low).drop_last() == high + low.drop_last());
        lemma_bits_value_concat(high, low.drop_last());
        lemma_pow2_unfold(low.len());
        lemma_mul_is_associative(
            bits_value(high) as int,
            2,
            pow2((low.len() - 1) as nat) as int,
        );
        lemma_mul_is_commutative(bits_value(high) as int, 2);
        lemma_mul_is_associative(
            2,
            bits_value(high) as int,
            pow2((low.len() - 1) as nat) as int,
        );
    }
}

/// A run of zeros and ones, read as a number and written again in as many
/// bits, is the run.
pub proof fn lemma_bits_of_value_of_bits(bits: Seq<u8>)
    requires
        is_binary(bits),
    ensures
        bits_of_value(bits_value(bits), bits.len()) == bits,
    decreases bits.len(),
{
    lemma2_to64();
    let again = bits_of_value(bits_value(bits), bits.len());
    if bits.len() > 0 {
        let init = bits.drop_last();
        let rest = init.len();
        lemma_bits_of_value_of_bits(init);
        assert(bits_value(bits) / 2 == bits_value(init));
        assert forall|i: int| 0 <= i < bits.len() implies again[i] == bits[i] by {
            if i < rest {
                lemma_bit_at_shifted(bits_value(bits), 1, (rest - 1 - i) as nat);
                assert(bits_of_value(bits_value(init), rest)[i] == init[i]);
            } else {
                assert(bits_value(bits) / pow2(0) == bits_value(bits));
            }
        }
    }
    assert(again =~= bits);
}

/// Eight zeros and ones pack into the byte that they spell.
pub proof fn lemma_packed_byte_is_value(chunk: Seq<u8>)
    requires
        chunk.len() == 8,
        is_binary(chunk),
    ensures
        packed_byte(chunk) == bits_value(chunk),
{
    let (b0, b1, b2, b3) = (chunk[0], chunk[1], chunk[2], chunk[3]);
    let (b4, b5, b6, b7) = (chunk[4], chunk[5], chunk[6], chunk[7]);
    let c7 = chunk.drop_last();
    let c6 = c7.drop_last();
    let c5 = c6.drop_last();
    let c4 = c5.drop_last();
    let c3 = c4.drop_last();
    let c2 = c3.drop_last();
    let c1 = c2.drop_last();
    let c0 = c1.drop_last();
    assert(packed_byte(c0) == 0 && bits_value(c0) == 0);
    assert(packed_byte(c1) == 0u8 | (b0 << 7u8) && bits_value(c1) == b0);
    assert(packed_byte(c2) == packed_byte(c1) | (b1 << 6u8));
    assert(packed_byte(c3) == packed_byte(c2) | (b2 << 5u8));
    assert(packed_byte(c4) == packed_byte(c3) | (b3 << 4u8));
    assert(packed_byte(c5) == packed_byte(c4) | (b4 << 3u8));
    assert(packed_byte(c6) == packed_byte(c5) | (b5 << 2u8));
    assert(packed_byte(c7) == packed_byte(c6) | (b6 << 1u8));
    assert(packed_byte(chunk) == packed_byte(c7) | (b7 << 0u8));
    assert(bits_value(c2) == 2 * bits_value(c1) + b1);
    assert(bits_value(c3) == 2 * bits_value(c2) + b2);
    assert(bits_value(c4) == 2 * bits_value(c3) + b3);
    assert(bits_value(c5) == 2 * bits_value(c4) + b4);
    assert(bits_value(c6) == 2 * bits_value(c5) + b5);
    assert(bits_value(c7) == 2 * bits_value(c6) + b6);
    assert(bits_value(chunk) == 2 * bits_value(c7) + b7);
    assert((0u8 | (b0 << 7u8) | (b1 << 6u8) | (b2 << 5u8) | (b3 << 4u8) | (b4 << 3u8) | (b5
        << 2u8) | (b6 << 1u8) | (b7 << 0u8)) == 128 * b0 + 64 * b1 + 32 * b2 + 16 * b3 + 8 * b4
        + 4 * b5 + 2 * b6 + b7) by (bit_vector)
        requires
            b0 <= 1,
            b1 <= 1,
            b2 <= 1,
            b3 <= 1,
            b4 <= 1,
            b5 <= 1,
            b6 <= 1,
            b7 <= 1,
    ;
}

/// Bits that were packed and are spread out again are the bits they were,
/// where they are zeros and ones that fill whole bytes.
pub proof fn lemma_unpack_packed(bits: Seq<u8>)
    requires
        is_binary(bits),
        bits.len() % 8 == 0,
    ensures
        unpacked_bits(packed_bytes(bits)) == bits,
{
    let bytes = packed_bytes(bits);
    let again = unpacked_bits(bytes);
    assert forall|i: int| 0 <= i < bits.len() implies again[i] == bits[i] by {
        let chunk = bit_chunk(bits, i / 8);
        lemma_packed_byte_is_value(chunk);
        lemma_bits_of_value_of_bits(chunk);
        assert(bits_of_value(bits_value(chunk), 8)[i % 8] == chunk[i % 8]);
    }
    assert(again =~= bits);
}

/// Bytes that were spread out into bits and are packed again are the bytes
/// they were.
pub proof fn lemma_pack_unpacked(bytes: Seq<u8>)
    ensures
        packed_bytes(unpacked_bits(bytes)) == bytes,
        is_binary(unpacked_bits(bytes)),
{
    let bits = unpacked_bits(bytes);
    let again = packed_bytes(bits);
    assert forall|j: int| 0 <= j < bytes.len() implies again[j] == bytes[j] by {
        let chunk = bit_chunk(bits, j);
        assert(chunk =~= bits_of_value(bytes[j] as nat, 8));
        lemma_packed_byte_is_value(chunk);
        lemma_bits_value_of_value(bytes[j] as nat, 8);
        lemma2_to64();
    }
    assert(again =~= bytes);
}

} // verus!
