//! The binary layout of the QR code: a record of 88 bits.
//!
//! In order: 4 bits of padding, the PIN code in 27 bits, the discriminator in
//! 12, the discovery mask in 8, the commissioning flow in 2, the product id
//! and the vendor id in 16 each, the version in 3. The code itself is `MT:`
//! and the Base38 text of the record's bytes in reverse order.

use super::common::CommissioningFlow;
use super::layout::{field, field_value, put_field};
use crate::base38::{decode_spec, decode_symbols};
use crate::bit_utils::{
    bits_of_value, bits_to_bytes_be, bytes_to_bits_be, fits_in_bits, is_binary,
    lemma_bits_value_of_value, lemma_unpack_packed, packed_bytes, unpacked_bits,
};
use crate::error::{LayoutError, MatterPayloadError, PayloadError};
use crate::text::chars_of;
use vstd::arithmetic::power2::*;
use vstd::prelude::*;

verus! {

/// The number of bits in the record.
pub const QR_RECORD_BITS: usize = 88;

/// The number of bytes in the record.
pub const QR_RECORD_BYTES: usize = 11;

/// The number of bytes that hold the fields up to the commissioning flow.
pub const QR_FLOW_BYTES: usize = 7;

/// The record of a QR code.
#[derive(Debug, PartialEq, Eq)]
pub struct QrCodeData {
    /// Reserved bits; 4 bits.
    pub padding: u8,
    /// The setup PIN code; 27 bits.
    pub pincode: u32,
    /// The long discriminator; 12 bits.
    pub discriminator: u16,
    /// The discovery capabilities.
    pub discovery: u8,
    /// The commissioning flow; 2 bits.
    pub flow: CommissioningFlow,
    /// The product id.
    pub pid: u16,
    /// The vendor id.
    pub vid: u16,
    /// The version of the layout; 3 bits.
    pub version: u8,
}

/// `s` begins with `MT:`.
pub open spec fn has_qr_prefix(s: Seq<char>) -> bool {
    s.len() >= 3 && s[0] == 'M' && s[1] == 'T' && s[2] == ':'
}

impl QrCodeData {
    /// The record as a run of 88 bits, field after field.
    pub open spec fn bits(self) -> Seq<u8> {
        bits_of_value(self.padding as nat, 4) + bits_of_value(self.pincode as nat, 27)
            + bits_of_value(self.discriminator as nat, 12) + bits_of_value(
            self.discovery as nat,
            8,
        ) + bits_of_value(self.flow.tag_spec() as nat, 2) + bits_of_value(self.pid as nat, 16)
            + bits_of_value(self.vid as nat, 16) + bits_of_value(self.version as nat, 3)
    }

    /// The first field, in the order of the layout, whose value is too large
    /// for its width, as the failure it causes; `None` where all fit.
    pub open spec fn overflow(self) -> Option<LayoutError> {
        if !fits_in_bits(self.padding as nat, 4) {
            Some(LayoutError::FieldOverflow { value: self.padding as u64, bits: 4 })
        } else if !fits_in_bits(self.pincode as nat, 27) {
            Some(LayoutError::FieldOverflow { value: self.pincode as u64, bits: 27 })
        } else if !fits_in_bits(self.discriminator as nat, 12) {
            Some(LayoutError::FieldOverflow { value: self.discriminator as u64, bits: 12 })
        } else if !fits_in_bits(self.version as nat, 3) {
            Some(LayoutError::FieldOverflow { value: self.version as u64, bits: 3 })
        } else {
            None
        }
    }

    /// What `to_bytes` returns: the 11 bytes of the record, where every field
    /// fits in its width.
    pub open spec fn to_bytes_spec(self) -> Result<Seq<u8>, MatterPayloadError> {
        match self.overflow() {
            Some(e) => Err(MatterPayloadError::Layout(e)),
            None => Ok(packed_bytes(self.bits())),
        }
    }

    /// The record that the first 88 of `bits` hold.
    pub open spec fn of_bits(bits: Seq<u8>, flow: CommissioningFlow) -> QrCodeData {
        QrCodeData {
            padding: field_value(bits, 0, 4) as u8,
            pincode: field_value(bits, 4, 27) as u32,
            discriminator: field_value(bits, 31, 12) as u16,
            discovery: field_value(bits, 43, 8) as u8,
            flow,
            pid: field_value(bits, 53, 16) as u16,
            vid: field_value(bits, 69, 16) as u16,
            version: field_value(bits, 85, 3) as u8,
        }
    }

    /// What `from_bytes` returns. The fields are read in order, so bytes
    /// that end before the flow are incomplete, a flow tag that names no
    /// flow is refused next, and then bytes that end before the record does.
    /// Bytes after the record are not looked at.
    pub open spec fn from_bytes_spec(bytes: Seq<u8>) -> Result<QrCodeData, MatterPayloadError> {
        let bits = unpacked_bits(bytes);
        if bytes.len() < 7 {
            Err(MatterPayloadError::Layout(LayoutError::Incomplete))
        } else {
            match CommissioningFlow::from_tag_spec(field_value(bits, 51, 2) as u8) {
                None => Err(
                    MatterPayloadError::Layout(
                        LayoutError::UnknownFlow(field_value(bits, 51, 2) as u8),
                    ),
                ),
                Some(flow) => if bytes.len() < 11 {
                    Err(MatterPayloadError::Layout(LayoutError::Incomplete))
                } else {
                    Ok(Self::of_bits(bits, flow))
                },
            }
        }
    }

    /// What `parse_from_str` returns.
    pub open spec fn parse_spec(payload: Seq<char>) -> Result<QrCodeData, MatterPayloadError> {
        if !has_qr_prefix(payload) {
            Err(MatterPayloadError::Payload(PayloadError::InvalidQrCodePrefix))
        } else {
            match decode_spec(payload.skip(3)) {
                Err(e) => Err(MatterPayloadError::Base38(e)),
                Ok(bytes) => Self::from_bytes_spec(bytes.reverse()),
            }
        }
    }

    /// Writes the record: 11 bytes.
    ///
    /// Fails with [`LayoutError::FieldOverflow`] for the first field whose
    /// value is too large for its width.
    pub fn to_bytes(&self) -> (result: Result<Vec<u8>, MatterPayloadError>)
        ensures
            match result {
                Ok(bytes) => self.to_bytes_spec() == Ok::<Seq<u8>, MatterPayloadError>(bytes@)
                    && bytes@.len() == 11,
                Err(e) => self.to_bytes_spec() == Err::<Seq<u8>, MatterPayloadError>(e),
            },
    {
        proof {
            lemma2_to64();
        }
        let mut bits: Vec<u8> = Vec::with_capacity(QR_RECORD_BITS);
        match put_field(&mut bits, self.padding as u64, 4) {
            Ok(()) => {},
            Err(e) => {
                return Err(e);
            },
        }
        match put_field(&mut bits, self.pincode as u64, 27) {
            Ok(()) => {},
            Err(e) => {
                return Err(e);
            },
        }
        match put_field(&mut bits, self.discriminator as u64, 12) {
            Ok(()) => {},
            Err(e) => {
                return Err(e);
            },
        }
        match put_field(&mut bits, self.discovery as u64, 8) {
            Ok(()) => {},
            Err(e) => {
                return Err(e);
            },
        }
        match put_field(&mut bits, self.flow.tag() as u64, 2) {
            Ok(()) => {},
            Err(e) => {
                return Err(e);
            },
        }
        match put_field(&mut bits, self.pid as u64, 16) {
            Ok(()) => {},
            Err(e) => {
                return Err(e);
            },
        }
        match put_field(&mut bits, self.vid as u64, 16) {
            Ok(()) => {},
            Err(e) => {
                return Err(e);
            },
        }
        match put_field(&mut bits, self.version as u64, 3) {
            Ok(()) => {},
            Err(e) => {
                return Err(e);
            },
        }
        assert(bits@ == self.bits());
        Ok(bits_to_bytes_be(bits.as_slice()))
    }

    /// Reads a record from the first 11 of `bytes`.
    ///
    /// Fails with [`LayoutError::Incomplete`] where the bytes end before the
    /// record does, and with [`LayoutError::UnknownFlow`] where the two flow
    /// bits hold 3.
    pub fn from_bytes(bytes: &[u8]) -> (result: Result<QrCodeData, MatterPayloadError>)
        ensures
            result == Self::from_bytes_spec(bytes@),
    {
        proof {
            lemma2_to64();
        }
        if bytes.len() < QR_FLOW_BYTES {
            return Err(MatterPayloadError::Layout(LayoutError::Incomplete));
        }
        let bits = bytes_to_bits_be(bytes);
        let tag = field(bits.as_slice(), 51, 2) as u8;
        let flow = match CommissioningFlow::from_tag(tag) {
            Some(flow) => flow,
            None => {
                return Err(MatterPayloadError::Layout(LayoutError::UnknownFlow(tag)));
            },
        };
        if bytes.len() < QR_RECORD_BYTES {
            return Err(MatterPayloadError::Layout(LayoutError::Incomplete));
        }
        Ok(
            QrCodeData {
                padding: field(bits.as_slice(), 0, 4) as u8,
                pincode: field(bits.as_slice(), 4, 27) as u32,
                discriminator: field(bits.as_slice(), 31, 12) as u16,
                discovery: field(bits.as_slice(), 43, 8) as u8,
                flow,
                pid: field(bits.as_slice(), 53, 16) as u16,
                vid: field(bits.as_slice(), 69, 16) as u16,
                version: field(bits.as_slice(), 85, 3) as u8,
            },
        )
    }

    /// Parses a QR code, `MT:` and Base38 text, into its record.
    ///
    /// Fails with [`PayloadError::InvalidQrCodePrefix`] where the code does
    /// not begin with `MT:`, with the failure of the Base38 decoding where
    /// the rest is no Base38 text, and with the failure of [`Self::from_bytes`]
    /// where the bytes, in reverse order, hold no record.
    pub fn parse_from_str(payload: &str) -> (result: Result<QrCodeData, MatterPayloadError>)
        ensures
            result == Self::parse_spec(payload@),
    {
        let chars = chars_of(payload);
        parse_qr_symbols(chars.as_slice())
    }
}

/// Parses the characters of a QR code: see [`QrCodeData::parse_from_str`].
pub fn parse_qr_symbols(chars: &[char]) -> (result: Result<QrCodeData, MatterPayloadError>)
    ensures
        result == QrCodeData::parse_spec(chars@),
{
    let n = chars.len();
    if !(n >= 3 && chars[0] == 'M' && chars[1] == 'T' && chars[2] == ':') {
        return Err(MatterPayloadError::Payload(PayloadError::InvalidQrCodePrefix));
    }
    assert(chars@.subrange(3, n as int) == chars@.skip(3));
    let decoded_bytes = match decode_symbols(&chars[3..n]) {
        Ok(bytes) => bytes,
        Err(e) => {
            return Err(e);
        },
    };
    let record = reversed(decoded_bytes.as_slice());
    QrCodeData::from_bytes(record.as_slice())
}

/// The bytes in reverse order.
pub fn reversed(bytes: &[u8]) -> (result: Vec<u8>)
    ensures
        result@ == bytes@.reverse(),
{
    let n = bytes.len();
    let mut result: Vec<u8> = Vec::with_capacity(n);
    let mut i: usize = n;
    while i > 0
        invariant
            i <= n,
            n == bytes.len(),
            result@ == bytes@.reverse().take(n - i),
        decreases i,
    {
        i -= 1;
        assert(bytes@.reverse().take(n - i) == bytes@.reverse().take(n - i - 1).push(
            bytes[i as int],
        ));
        result.push(bytes[i]);
    }
    assert(bytes@.reverse().take(n as int) == bytes@.reverse());
    result
}

/// A record that is written and read again is the record it was, where
/// every field fits in its width.
pub proof fn lemma_qr_record_round_trip(data: QrCodeData)
    requires
        data.overflow() is None,
    ensures
        data.to_bytes_spec() == Ok::<Seq<u8>, MatterPayloadError>(packed_bytes(data.bits())),
        packed_bytes(data.bits()).len() == 11,
        QrCodeData::from_bytes_spec(packed_bytes(data.bits())) == Ok::<
            QrCodeData,
            MatterPayloadError,
        >(data),
{
    let bits = data.bits();
    lemma2_to64();
    assert(is_binary(bits)) by {
        assert forall|i: int| 0 <= i < bits.len() implies bits[i] <= 1 by {}
    }
    assert(bits.len() == 88);
    lemma_unpack_packed(bits);
    assert(bits.subrange(0, 4) =~= bits_of_value(data.padding as nat, 4));
    lemma_bits_value_of_value(data.padding as nat, 4);
    assert(bits.subrange(4, 31) =~= bits_of_value(data.pincode as nat, 27));
    lemma_bits_value_of_value(data.pincode as nat, 27);
    assert(bits.subrange(31, 43) =~= bits_of_value(data.discriminator as nat, 12));
    lemma_bits_value_of_value(data.discriminator as nat, 12);
    assert(bits.subrange(43, 51) =~= bits_of_value(data.discovery as nat, 8));
    lemma_bits_value_of_value(data.discovery as nat, 8);
    assert(bits.subrange(51, 53) =~= bits_of_value(data.flow.tag_spec() as nat, 2));
    lemma_bits_value_of_value(data.flow.tag_spec() as nat, 2);
    assert(bits.subrange(53, 69) =~= bits_of_value(data.pid as nat, 16));
    lemma_bits_value_of_value(data.pid as nat, 16);
    assert(bits.subrange(69, 85) =~= bits_of_value(data.vid as nat, 16));
    lemma_bits_value_of_value(data.vid as nat, 16);
    assert(bits.subrange(85, 88) =~= bits_of_value(data.version as nat, 3));
    lemma_bits_value_of_value(data.version as nat, 3);
}

} // verus!
