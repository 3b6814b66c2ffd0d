//! The binary layout of the manual pairing code, and the code's digits.
//!
//! The record holds, in order: the version in 1 bit, a flag that tells
//! whether vendor and product id follow, the discriminator in 4 bits, the low
//! 14 bits of the PIN code, its high 13 bits, then the vendor id and the
//! product id in 16 bits each where they are there, and 7 bits of padding.
//!
//! The code is 11 or 21 decimal digits, the last of which is a check digit.
//! Its digits come in chunks of 1, 5 and 4, and in the long form two more of
//! 5 each; the chunks are numbers of 4, 16, 13, 16 and 16 bits, which, one
//! after the other, are the record.

use super::layout::{
    field, field_value, lemma_part_of_value, lemma_two_parts, lemma_zero_bits, put_field,
    put_zeros, zero_bits,
};
use crate::bit_utils::{
    bits_of_value, bits_to_bytes_be, bytes_to_bits_be, fits_in_bits, is_binary,
    lemma_bits_value_of_value, lemma_unpack_packed, packed_bytes, u64_to_bits_be, unpacked_bits,
};
use crate::error::{
    BitUtilsError, LayoutError, MatterPayloadError, MatterPayloadErrorView, PayloadError,
    PayloadErrorView,
};
use crate::text::{
    chars_of, decimal_value, digit_value, is_decimal_digit, parse_decimal, to_digit,
};
use crate::verhoeff::{lemma_first_non_digit, validate, validate_spec};
use vstd::arithmetic::power2::*;
use vstd::prelude::*;
use vstd::utf8::{encode_utf8, is_ascii_chars, is_ascii_chars_encode_utf8};

verus! {

/// The record of a manual pairing code.
#[derive(Debug, PartialEq, Eq)]
pub struct ManualCodeData {
    /// The version of the layout; 1 bit.
    pub version: u8,
    /// 1 where vendor id and product id follow the PIN code, else 0; 1 bit.
    pub vid_pid_present: u8,
    /// The short discriminator; 4 bits.
    pub discriminator: u8,
    /// The low 14 bits of the PIN code.
    pub pincode_lsb: u16,
    /// The high 13 bits of the PIN code.
    pub pincode_msb: u16,
    /// The vendor id.
    pub vid: Option<u16>,
    /// The product id.
    pub pid: Option<u16>,
    /// Reserved bits; 7 bits.
    pub padding: u8,
}

/// The bits of a field that may be missing: 16 where it is there, else none.
pub open spec fn optional_bits(value: Option<u16>) -> Seq<u8> {
    match value {
        Some(v) => bits_of_value(v as nat, 16),
        None => Seq::empty(),
    }
}

/// The bits that the chunks of a code spell: 72 in all. In the short form
/// 32 zero bits stand where vendor and product id would.
pub open spec fn chunk_bits(c1: nat, c2: nat, c3: nat, c4: nat, c5: nat) -> Seq<u8> {
    bits_of_value(c1, 4) + bits_of_value(c2, 16) + bits_of_value(c3, 13) + (if c1 >= 4 {
        bits_of_value(c4, 16) + bits_of_value(c5, 16)
    } else {
        zero_bits(32)
    }) + zero_bits(7)
}

impl ManualCodeData {
    /// The record as a run of bits, field after field: 72 bits with vendor
    /// and product id, 16 less for each of the two that is missing.
    pub open spec fn bits(self) -> Seq<u8> {
        bits_of_value(self.version as nat, 1) + bits_of_value(self.vid_pid_present as nat, 1)
            + bits_of_value(self.discriminator as nat, 4) + bits_of_value(
            self.pincode_lsb as nat,
            14,
        ) + bits_of_value(self.pincode_msb as nat, 13) + optional_bits(self.vid)
            + optional_bits(self.pid) + bits_of_value(self.padding as nat, 7)
    }

    /// The first field, in the order of the layout, whose value is too large
    /// for its width, as the failure it causes; `None` where all fit.
    pub open spec fn overflow(self) -> Option<LayoutError> {
        if !fits_in_bits(self.version as nat, 1) {
            Some(LayoutError::FieldOverflow { value: self.version as u64, bits: 1 })
        } else if !fits_in_bits(self.vid_pid_present as nat, 1) {
            Some(LayoutError::FieldOverflow { value: self.vid_pid_present as u64, bits: 1 })
        } else if !fits_in_bits(self.discriminator as nat, 4) {
            Some(LayoutError::FieldOverflow { value: self.discriminator as u64, bits: 4 })
        } else if !fits_in_bits(self.pincode_lsb as nat, 14) {
            Some(LayoutError::FieldOverflow { value: self.pincode_lsb as u64, bits: 14 })
        } else if !fits_in_bits(self.pincode_msb as nat, 13) {
            Some(LayoutError::FieldOverflow { value: self.pincode_msb as u64, bits: 13 })
        } else if !fits_in_bits(self.padding as nat, 7) {
            Some(LayoutError::FieldOverflow { value: self.padding as u64, bits: 7 })
        } else {
            None
        }
    }

    /// What `to_bytes` returns: the bytes of the record, where every field
    /// fits in its width.
    pub open spec fn to_bytes_spec(self) -> Result<Seq<u8>, MatterPayloadError> {
        match self.overflow() {
            Some(e) => Err(MatterPayloadError::Layout(e)),
            None => Ok(packed_bytes(self.bits())),
        }
    }

    /// What `from_bytes` returns. Vendor and product id are read where the
    /// flag is 1, and the padding follows what was read last.
    pub open spec fn from_bytes_spec(bytes: Seq<u8>) -> Result<
        ManualCodeData,
        MatterPayloadError,
    > {
        let bits = unpacked_bits(bytes);
        let present = field_value(bits, 1, 1) == 1;
        if bytes.len() < 5 || (present && bytes.len() < 9) {
            Err(MatterPayloadError::Layout(LayoutError::Incomplete))
        } else {
            Ok(
                ManualCodeData {
                    version: field_value(bits, 0, 1) as u8,
                    vid_pid_present: field_value(bits, 1, 1) as u8,
                    discriminator: field_value(bits, 2, 4) as u8,
                    pincode_lsb: field_value(bits, 6, 14) as u16,
                    pincode_msb: field_value(bits, 20, 13) as u16,
                    vid: if present {
                        Some(field_value(bits, 33, 16) as u16)
                    } else {
                        None
                    },
                    pid: if present {
                        Some(field_value(bits, 49, 16) as u16)
                    } else {
                        None
                    },
                    padding: if present {
                        field_value(bits, 65, 7) as u8
                    } else {
                        field_value(bits, 33, 7) as u8
                    },
                },
            )
        }
    }

    /// The record of a code whose chunks are the numbers `c1` to `c5`. The
    /// first chunk holds the version, the flag and the two high bits of the
    /// discriminator; the second the two low bits of the discriminator and
    /// the low bits of the PIN code; the third the high bits of the PIN
    /// code; the fourth and fifth the vendor and the product id.
    pub open spec fn of_chunks(c1: nat, c2: nat, c3: nat, c4: nat, c5: nat) -> ManualCodeData
        recommends
            c1 <= 7,
            c2 < 0x1_0000,
            c3 < 0x2000,
            c4 < 0x1_0000,
            c5 < 0x1_0000,
    {
        ManualCodeData {
            version: 0,
            vid_pid_present: (c1 / 4) as u8,
            discriminator: ((c1 % 4) * 4 + c2 / 0x4000) as u8,
            pincode_lsb: (c2 % 0x4000) as u16,
            pincode_msb: c3 as u16,
            vid: if c1 >= 4 {
                Some(c4 as u16)
            } else {
                None
            },
            pid: if c1 >= 4 {
                Some(c5 as u16)
            } else {
                None
            },
            padding: 0,
        }
    }

    /// What `parse_from_str` returns.
    ///
    /// The length that counts is the one in bytes. A code that validates
    /// holds decimal digits only, so from there on bytes and characters are
    /// the same.
    pub open spec fn parse_spec(payload: Seq<char>) -> Result<
        ManualCodeData,
        MatterPayloadErrorView,
    > {
        let byte_len = encode_utf8(payload).len() as usize;
        if byte_len != 11 && byte_len != 21 {
            Err(
                MatterPayloadErrorView::Payload(
                    PayloadErrorView::InvalidManualCodeLength(byte_len),
                ),
            )
        } else {
            match validate_spec(payload) {
                Err(e) => Err(e@),
                Ok(false) => Err(
                    MatterPayloadErrorView::Payload(PayloadErrorView::InvalidManualCodeChecksum),
                ),
                Ok(true) => {
                    let c1 = digit_value(payload[0]) as nat;
                    let c2 = decimal_value(payload.subrange(1, 6));
                    let c3 = decimal_value(payload.subrange(6, 10));
                    let c4 = if c1 >= 4 {
                        decimal_value(payload.subrange(10, 15))
                    } else {
                        0
                    };
                    let c5 = if c1 >= 4 {
                        decimal_value(payload.subrange(15, 20))
                    } else {
                        0
                    };
                    if c1 > 7 {
                        Err(
                            MatterPayloadErrorView::Payload(
                                PayloadErrorView::InvalidManualCodePrefix,
                            ),
                        )
                    } else if c1 >= 4 && payload.len() < 21 {
                        Err(
                            MatterPayloadErrorView::Payload(
                                PayloadErrorView::InvalidManualCodeDigit(payload),
                            ),
                        )
                    } else if c2 >= 0x1_0000 {
                        Err(
                            MatterPayloadErrorView::BitUtils(
                                BitUtilsError::ValueOverflow { value: c2 as u64, bits: 16 },
                            ),
                        )
                    } else if c3 >= 0x2000 {
                        Err(
                            MatterPayloadErrorView::BitUtils(
                                BitUtilsError::ValueOverflow { value: c3 as u64, bits: 13 },
                            ),
                        )
                    } else if c4 >= 0x1_0000 {
                        Err(
                            MatterPayloadErrorView::BitUtils(
                                BitUtilsError::ValueOverflow { value: c4 as u64, bits: 16 },
                            ),
                        )
                    } else if c5 >= 0x1_0000 {
                        Err(
                            MatterPayloadErrorView::BitUtils(
                                BitUtilsError::ValueOverflow { value: c5 as u64, bits: 16 },
                            ),
                        )
                    } else {
                        Ok(Self::of_chunks(c1, c2, c3, c4, c5))
                    }
                },
            }
        }
    }

    /// Writes the record: 9 bytes with vendor and product id, 2 less for
    /// each of the two that is missing.
    ///
    /// Fails with [`LayoutError::FieldOverflow`] for the first field whose
    /// value is too large for its width.
    pub fn to_bytes(&self) -> (result: Result<Vec<u8>, MatterPayloadError>)
        ensures
            match result {
                Ok(bytes) => self.to_bytes_spec() == Ok::<Seq<u8>, MatterPayloadError>(bytes@),
                Err(e) => self.to_bytes_spec() == Err::<Seq<u8>, MatterPayloadError>(e),
            },
    {
        proof {
            lemma2_to64();
        }
        let mut bits: Vec<u8> = Vec::with_capacity(72);
        match put_field(&mut bits, self.version as u64, 1) {
            Ok(()) => {},
            Err(e) => {
                return Err(e);
            },
        }
        match put_field(&mut bits, self.vid_pid_present as u64, 1) {
            Ok(()) => {},
            Err(e) => {
                return Err(e);
            },
        }
        match put_field(&mut bits, self.discriminator as u64, 4) {
            Ok(()) => {},
            Err(e) => {
                return Err(e);
            },
        }
        match put_field(&mut bits, self.pincode_lsb as u64, 14) {
            Ok(()) => {},
            Err(e) => {
                return Err(e);
            },
        }
        match put_field(&mut bits, self.pincode_msb as u64, 13) {
            Ok(()) => {},
            Err(e) => {
                return Err(e);
            },
        }
        let ghost fixed = bits@;
        if let Some(vid) = self.vid {
            match put_field(&mut bits, vid as u64, 16) {
                Ok(()) => {},
                Err(e) => {
                    return Err(e);
                },
            }
        }
        assert(bits@ =~= fixed + optional_bits(self.vid));
        if let Some(pid) = self.pid {
            match put_field(&mut bits, pid as u64, 16) {
                Ok(()) => {},
                Err(e) => {
                    return Err(e);
                },
            }
        }
        assert(bits@ =~= fixed + optional_bits(self.vid) + optional_bits(self.pid));
        match put_field(&mut bits, self.padding as u64, 7) {
            Ok(()) => {},
            Err(e) => {
                return Err(e);
            },
        }
        assert(bits@ == self.bits());
        Ok(bits_to_bytes_be(bits.as_slice()))
    }

    /// Reads a record from the first 5 of `bytes`, or the first 9 where
    /// the flag says that vendor and product id are there.
    ///
    /// Fails with [`LayoutError::Incomplete`] where the bytes end before the
    /// record does.
    pub fn from_bytes(bytes: &[u8]) -> (result: Result<ManualCodeData, MatterPayloadError>)
        ensures
            result == Self::from_bytes_spec(bytes@),
    {
        proof {
            lemma2_to64();
        }
        if bytes.len() < 5 {
            return Err(MatterPayloadError::Layout(LayoutError::Incomplete));
        }
        let bits = bytes_to_bits_be(bytes);
        let version = field(bits.as_slice(), 0, 1) as u8;
        let vid_pid_present = field(bits.as_slice(), 1, 1) as u8;
        let discriminator = field(bits.as_slice(), 2, 4) as u8;
        let pincode_lsb = field(bits.as_slice(), 6, 14) as u16;
        let pincode_msb = field(bits.as_slice(), 20, 13) as u16;
        if vid_pid_present == 1 {
            if bytes.len() < 9 {
                return Err(MatterPayloadError::Layout(LayoutError::Incomplete));
            }
            Ok(
                ManualCodeData {
                    version,
                    vid_pid_present,
                    discriminator,
                    pincode_lsb,
                    pincode_msb,
                    vid: Some(field(bits.as_slice(), 33, 16) as u16),
                    pid: Some(field(bits.as_slice(), 49, 16) as u16),
                    padding: field(bits.as_slice(), 65, 7) as u8,
                },
            )
        } else {
            Ok(
                ManualCodeData {
                    version,
                    vid_pid_present,
                    discriminator,
                    pincode_lsb,
                    pincode_msb,
                    vid: None,
                    pid: None,
                    padding: field(bits.as_slice(), 33, 7) as u8,
                },
            )
        }
    }

    /// Parses a manual pairing code into its record.
    ///
    /// The code has to be 11 or 21 bytes long
    /// ([`PayloadError::InvalidManualCodeLength`]), to hold decimal digits
    /// only (the failure of [`validate`]) whose check digit fits
    /// ([`PayloadError::InvalidManualCodeChecksum`]), and to begin with a
    /// digit up to 7 ([`PayloadError::InvalidManualCodePrefix`]). A first
    /// digit from 4 on calls for the long form; a code of 11 digits has not
    /// the digits for it ([`PayloadError::InvalidManualCodeDigit`]). A chunk
    /// of digits that spells a number too large for its bits fails with
    /// [`BitUtilsError::ValueOverflow`].
    pub fn parse_from_str(payload: &str) -> (result: Result<ManualCodeData, MatterPayloadError>)
        ensures
            match result {
                Ok(data) => Self::parse_spec(payload@) == Ok::<
                    ManualCodeData,
                    MatterPayloadErrorView,
                >(data),
                Err(e) => Self::parse_spec(payload@) == Err::<
                    ManualCodeData,
                    MatterPayloadErrorView,
                >(e@),
            },
    {
        let len = payload.len();
        if len != 11 && len != 21 {
            return Err(MatterPayloadError::Payload(PayloadError::InvalidManualCodeLength(len)));
        }
        match validate(payload) {
            Err(e) => {
                return Err(e);
            },
            Ok(false) => {
                return Err(MatterPayloadError::Payload(PayloadError::InvalidManualCodeChecksum));
            },
            Ok(true) => {},
        }
        let chars = chars_of(payload);
        proof {
            lemma_first_non_digit(payload@, 0);
            assert(is_ascii_chars(payload@)) by {
                assert forall|i: int| 0 <= i < payload@.len() implies '\0' <= #[trigger] payload@[i]
                    <= '\u{7f}' by {
                    assert(is_decimal_digit(payload@[i]));
                }
            }
            is_ascii_chars_encode_utf8(payload@);
            assert(is_decimal_digit(chars@[0]));
            lemma2_to64();
        }
        let first_digit = match to_digit(chars[0]) {
            Some(digit) => digit,
            None => {
                return Err(
                    MatterPayloadError::Payload(
                        PayloadError::InvalidManualCodeDigit(payload.to_owned()),
                    ),
                );
            },
        };
        if first_digit > 7 {
            return Err(MatterPayloadError::Payload(PayloadError::InvalidManualCodePrefix));
        }
        let is_long = (first_digit & (1 << 2)) != 0;
        assert(is_long == (first_digit >= 4)) by (bit_vector)
            requires
                first_digit <= 7,
                is_long == ((first_digit & (1u8 << 2u8)) != 0),
        ;
        if is_long && len < 21 {
            return Err(
                MatterPayloadError::Payload(
                    PayloadError::InvalidManualCodeDigit(payload.to_owned()),
                ),
            );
        }
        let chunk1 = first_digit as u64;
        let chunk2 = parse_decimal(chars.as_slice(), 1, 6);
        let chunk3 = parse_decimal(chars.as_slice(), 6, 10);
        let (chunk4, chunk5) = if is_long {
            (parse_decimal(chars.as_slice(), 10, 15), parse_decimal(chars.as_slice(), 15, 20))
        } else {
            (0, 0)
        };
        // One run of 72 bits, chunk after chunk.
        let mut bits: Vec<u8> = Vec::with_capacity(72);
        match extend_with_bits(&mut bits, chunk1, 4) {
            Ok(()) => {},
            Err(e) => {
                return Err(e);
            },
        }
        match extend_with_bits(&mut bits, chunk2, 16) {
            Ok(()) => {},
            Err(e) => {
                return Err(e);
            },
        }
        match extend_with_bits(&mut bits, chunk3, 13) {
            Ok(()) => {},
            Err(e) => {
                return Err(e);
            },
        }
        if is_long {
            match extend_with_bits(&mut bits, chunk4, 16) {
                Ok(()) => {},
                Err(e) => {
                    return Err(e);
                },
            }
            match extend_with_bits(&mut bits, chunk5, 16) {
                Ok(()) => {},
                Err(e) => {
                    return Err(e);
                },
            }
        } else {
            put_zeros(&mut bits, 32);
        }
        put_zeros(&mut bits, 7);
        proof {
            assert(bits@ =~= chunk_bits(
                chunk1 as nat,
                chunk2 as nat,
                chunk3 as nat,
                chunk4 as nat,
                chunk5 as nat,
            ));
            lemma_record_of_chunks(
                chunk1 as nat,
                chunk2 as nat,
                chunk3 as nat,
                chunk4 as nat,
                chunk5 as nat,
            );
        }
        // Pack the bits and read the record from the bytes.
        let packed_bytes = bits_to_bytes_be(bits.as_slice());
        ManualCodeData::from_bytes(packed_bytes.as_slice())
    }
}

/// Appends `value` as `width` bits; fails as [`u64_to_bits_be`] does, and
/// then appends nothing.
fn extend_with_bits(bits: &mut Vec<u8>, value: u64, width: usize) -> (result: Result<
    (),
    MatterPayloadError,
>)
    ensures
        match result {
            Ok(()) => fits_in_bits(value as nat, width as nat) && final(bits)@ == old(bits)@
                + bits_of_value(value as nat, width as nat),
            Err(e) => !fits_in_bits(value as nat, width as nat) && final(bits)@ == old(bits)@ && e
                == MatterPayloadError::BitUtils(
                BitUtilsError::ValueOverflow { value, bits: width },
            ),
        },
{
    match u64_to_bits_be(value, width) {
        Ok(mut run) => {
            bits.append(&mut run);
            Ok(())
        },
        Err(e) => Err(e),
    }
}

/// The record that is read from the packed bits of a code's chunks is the
/// record of the chunks.
pub proof fn lemma_record_of_chunks(c1: nat, c2: nat, c3: nat, c4: nat, c5: nat)
    requires
        c1 <= 7,
        c2 < 0x1_0000,
        c3 < 0x2000,
        c4 < 0x1_0000,
        c5 < 0x1_0000,
    ensures
        ManualCodeData::from_bytes_spec(packed_bytes(chunk_bits(c1, c2, c3, c4, c5))) == Ok::<
            ManualCodeData,
            MatterPayloadError,
        >(ManualCodeData::of_chunks(c1, c2, c3, c4, c5)),
{
    let bits = chunk_bits(c1, c2, c3, c4, c5);
    let first = bits_of_value(c1, 4);
    let second = bits_of_value(c2, 16);
    let third = bits_of_value(c3, 13);
    lemma2_to64();
    lemma_zero_bits(32);
    lemma_zero_bits(7);
    assert(is_binary(bits)) by {
        assert forall|i: int| 0 <= i < bits.len() implies bits[i] <= 1 by {}
    }
    assert(bits.len() == 72);
    lemma_unpack_packed(bits);
    assert(packed_bytes(bits).len() == 9);
    // The version, the flag and the high bits of the discriminator.
    assert(bits.subrange(0, 1) =~= first.subrange(0, 1));
    lemma_part_of_value(c1, 4, 0, 1, 8, 2);
    assert(bits.subrange(1, 2) =~= first.subrange(1, 2));
    lemma_part_of_value(c1, 4, 1, 2, 4, 2);
    assert(bits.subrange(2, 6) =~= first.subrange(2, 4) + second.subrange(0, 2));
    lemma_part_of_value(c1, 4, 2, 4, 1, 4);
    lemma_part_of_value(c2, 16, 0, 2, 0x4000, 4);
    lemma_two_parts(first.subrange(2, 4), second.subrange(0, 2), 4);
    // The PIN code.
    assert(bits.subrange(6, 20) =~= second.subrange(2, 16));
    lemma_part_of_value(c2, 16, 2, 16, 1, 0x4000);
    assert(bits.subrange(20, 33) =~= third.subrange(0, 13));
    lemma_part_of_value(c3, 13, 0, 13, 1, 0x2000);
    // Vendor and product id, and the padding.
    if c1 >= 4 {
        assert(bits.subrange(33, 49) =~= bits_of_value(c4, 16).subrange(0, 16));
        lemma_part_of_value(c4, 16, 0, 16, 1, 0x1_0000);
        assert(bits.subrange(49, 65) =~= bits_of_value(c5, 16).subrange(0, 16));
        lemma_part_of_value(c5, 16, 0, 16, 1, 0x1_0000);
        assert(bits.subrange(65, 72) =~= bits_of_value(0, 7).subrange(0, 7));
        lemma_part_of_value(0, 7, 0, 7, 1, 0x80);
    } else {
        assert(bits.subrange(33, 40) =~= bits_of_value(0, 32).subrange(0, 7));
        lemma_part_of_value(0, 32, 0, 7, 0x200_0000, 0x80);
    }
}

/// The chunks that are read from the packed record: the first holds the
/// version, the flag and the two high bits of the discriminator, the second
/// the two low bits of the discriminator and the low bits of the PIN code,
/// the third the high bits of the PIN code.
pub proof fn lemma_chunks_of_record(data: ManualCodeData)
    requires
        data.overflow() is None,
    ensures
        data.bits().len() >= 40,
        unpacked_bits(packed_bytes(data.bits())) == data.bits(),
        field_value(data.bits(), 0, 4) == data.version * 8 + data.vid_pid_present * 4
            + data.discriminator / 4,
        field_value(data.bits(), 4, 16) == (data.discriminator % 4) * 0x4000 + data.pincode_lsb,
        field_value(data.bits(), 20, 13) == data.pincode_msb,
{
    let bits = data.bits();
    let version = bits_of_value(data.version as nat, 1);
    let flag = bits_of_value(data.vid_pid_present as nat, 1);
    let discriminator = bits_of_value(data.discriminator as nat, 4);
    let low = bits_of_value(data.pincode_lsb as nat, 14);
    let high = bits_of_value(data.pincode_msb as nat, 13);
    lemma2_to64();
    assert(is_binary(bits)) by {
        assert forall|i: int| 0 <= i < bits.len() implies bits[i] <= 1 by {}
    }
    assert(bits.len() == 40 || bits.len() == 56 || bits.len() == 72);
    lemma_unpack_packed(bits);
    // The first chunk.
    assert(bits.subrange(0, 4) =~= (version + flag) + discriminator.subrange(0, 2));
    lemma_bits_value_of_value(data.version as nat, 1);
    lemma_bits_value_of_value(data.vid_pid_present as nat, 1);
    lemma_part_of_value(data.discriminator as nat, 4, 0, 2, 4, 4);
    lemma_two_parts(version, flag, 2);
    lemma_two_parts(version + flag, discriminator.subrange(0, 2), 4);
    // The second chunk.
    assert(bits.subrange(4, 20) =~= discriminator.subrange(2, 4) + low);
    lemma_part_of_value(data.discriminator as nat, 4, 2, 4, 1, 4);
    lemma_bits_value_of_value(data.pincode_lsb as nat, 14);
    lemma_two_parts(discriminator.subrange(2, 4), low, 0x4000);
    // The third chunk.
    assert(bits.subrange(20, 33) =~= high);
    lemma_bits_value_of_value(data.pincode_msb as nat, 13);
}

/// A record that is written and read again is the record it was, where
/// every field fits in its width and vendor and product id are there
/// exactly if the flag says so.
pub proof fn lemma_manual_record_round_trip(data: ManualCodeData)
    requires
        data.overflow() is None,
        data.vid is Some <==> data.vid_pid_present == 1,
        data.pid is Some <==> data.vid_pid_present == 1,
    ensures
        data.to_bytes_spec() == Ok::<Seq<u8>, MatterPayloadError>(packed_bytes(data.bits())),
        ManualCodeData::from_bytes_spec(packed_bytes(data.bits())) == Ok::<
            ManualCodeData,
            MatterPayloadError,
        >(data),
{
    let bits = data.bits();
    lemma2_to64();
    assert(is_binary(bits)) by {
        assert forall|i: int| 0 <= i < bits.len() implies bits[i] <= 1 by {}
    }
    lemma_unpack_packed(bits);
    assert(bits.subrange(0, 1) =~= bits_of_value(data.version as nat, 1));
    lemma_bits_value_of_value(data.version as nat, 1);
    assert(bits.subrange(1, 2) =~= bits_of_value(data.vid_pid_present as nat, 1));
    lemma_bits_value_of_value(data.vid_pid_present as nat, 1);
    assert(bits.subrange(2, 6) =~= bits_of_value(data.discriminator as nat, 4));
    lemma_bits_value_of_value(data.discriminator as nat, 4);
    assert(bits.subrange(6, 20) =~= bits_of_value(data.pincode_lsb as nat, 14));
    lemma_bits_value_of_value(data.pincode_lsb as nat, 14);
    assert(bits.subrange(20, 33) =~= bits_of_value(data.pincode_msb as nat, 13));
    lemma_bits_value_of_value(data.pincode_msb as nat, 13);
    if data.vid_pid_present == 1 {
        assert(bits.len() == 72);
        assert(bits.subrange(33, 49) =~= bits_of_value(data.vid->0 as nat, 16));
        lemma_bits_value_of_value(data.vid->0 as nat, 16);
        assert(bits.subrange(49, 65) =~= bits_of_value(data.pid->0 as nat, 16));
        lemma_bits_value_of_value(data.pid->0 as nat, 16);
        assert(bits.subrange(65, 72) =~= bits_of_value(data.padding as nat, 7));
    } else {
        assert(bits.len() == 40);
        assert(bits.subrange(33, 40) =~= bits_of_value(data.padding as nat, 7));
    }
    lemma_bits_value_of_value(data.padding as nat, 7);
}

} // verus!
