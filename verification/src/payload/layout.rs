//! Fields of a fixed width in a run of bits: what both layouts are made of.
//!
//! A record is written field after field, each as a big-endian run of its
//! width, and the whole is packed into bytes. It is read by cutting the same
//! runs out of the unpacked bytes.

use crate::bit_utils::{
    bits_of_value, bits_to_u64_be, bits_value, fits_in_bits, is_binary,
    lemma_bits_of_value_subrange, lemma_bits_value_bound, lemma_bits_value_concat,
    lemma_bits_value_of_value, u64_to_bits_be,
};
use crate::error::{LayoutError, MatterPayloadError};
use vstd::arithmetic::power2::*;
use vstd::prelude::*;

verus! {

/// The number in the field of `width` bits that begins at bit `offset`.
pub open spec fn field_value(bits: Seq<u8>, offset: nat, width: nat) -> nat
    recommends
        offset + width <= bits.len(),
{
    bits_value(bits.subrange(offset as int, (offset + width) as int))
}

/// A run of `count` zero bits.
pub open spec fn zero_bits(count: nat) -> Seq<u8> {
    Seq::new(count, |i: int| 0u8)
}

/// Appends `value` as a field of `width` bits.
///
/// Fails with [`LayoutError::FieldOverflow`], and appends nothing, where the
/// value needs more bits than the field has.
pub fn put_field(bits: &mut Vec<u8>, value: u64, width: usize) -> (result: Result<
    (),
    MatterPayloadError,
>)
    ensures
        match result {
            Ok(()) => fits_in_bits(value as nat, width as nat) && final(bits)@ == old(bits)@
                + bits_of_value(value as nat, width as nat),
            Err(e) => !fits_in_bits(value as nat, width as nat) && final(bits)@ == old(bits)@ && e
                == MatterPayloadError::Layout(LayoutError::FieldOverflow { value, bits: width }),
        },
{
    match u64_to_bits_be(value, width) {
        Ok(mut field) => {
            bits.append(&mut field);
            Ok(())
        },
        Err(_) => Err(
            MatterPayloadError::Layout(LayoutError::FieldOverflow { value, bits: width }),
        ),
    }
}

/// Appends `count` zero bits.
pub fn put_zeros(bits: &mut Vec<u8>, count: usize)
    ensures
        final(bits)@ == old(bits)@ + zero_bits(count as nat),
{
    let ghost before = bits@;
    let mut i: usize = 0;
    assert(before + zero_bits(0) =~= before);
    while i < count
        invariant
            i <= count,
            bits@ == before + zero_bits(i as nat),
        decreases count - i,
    {
        bits.push(0);
        i += 1;
        assert(before + zero_bits(i as nat) =~= (before + zero_bits((i - 1) as nat)).push(0));
    }
}

/// The number in the field of `width` bits that begins at bit `offset`.
pub fn field(bits: &[u8], offset: usize, width: usize) -> (value: u64)
    requires
        offset + width <= bits.len(),
        width <= 64,
    ensures
        value == field_value(bits@, offset as nat, width as nat),
        value < pow2(width as nat),
{
    proof {
        lemma_bits_value_bound(bits@.subrange(offset as int, offset + width));
    }
    bits_to_u64_be(&bits[offset..offset + width])
}

/// Zero bits spell zero: they are the number 0 written in as many bits.
pub proof fn lemma_zero_bits(count: nat)
    ensures
        zero_bits(count) == bits_of_value(0, count),
        is_binary(zero_bits(count)),
{
    assert forall|i: int| 0 <= i < count implies #[trigger] bits_of_value(0, count)[i] == 0 by {
        lemma_pow2_pos((count - 1 - i) as nat);
    }
    assert(zero_bits(count) =~= bits_of_value(0, count));
}

/// A part of a number written in bits, read as a number: the number without
/// the bits below the part, as far as the part reaches. `below` is two to the
/// number of bits below the part, `span` two to the number of bits in it.
pub proof fn lemma_part_of_value(
    val: nat,
    width: nat,
    from: nat,
    to: nat,
    below: nat,
    span: nat,
)
    requires
        from <= to <= width,
        below == pow2((width - to) as nat),
        span == pow2((to - from) as nat),
    ensures
        bits_value(bits_of_value(val, width).subrange(from as int, to as int)) == (val / below)
            % span,
{
    lemma_bits_of_value_subrange(val, width, from, to);
    lemma_bits_value_of_value(val / pow2((width - to) as nat), (to - from) as nat);
}

/// Two runs read as one number: the first stands above the second. `span`
/// is two to the number of bits in the second.
pub proof fn lemma_two_parts(high: Seq<u8>, low: Seq<u8>, span: nat)
    requires
        span == pow2(low.len()),
    ensures
        bits_value(high + low) == bits_value(high) * span + bits_value(low),
{
    lemma_bits_value_concat(high, low);
}

} // verus!
