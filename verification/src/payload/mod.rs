//! Setup payloads: the descriptor, and its QR and manual codes.

pub mod common;
pub mod layout;
pub mod manual;
pub mod qr;

pub use common::CommissioningFlow;

use crate::base38::{encode, encode_spec, lemma_round_trip};
use crate::bit_utils::{bytes_to_bits_be, packed_bytes};
use crate::error::{MatterPayloadError, MatterPayloadErrorView, PayloadError};
use crate::text::{
    all_decimal_digits, chars_of, decimal_text, digit_value, from_digit, is_decimal_digit,
    lemma_decimal_text_is_digits, lemma_decimal_value_of_text, pow10, push_decimal,
};
use crate::verhoeff::{
    calculate_checksum, lemma_digits_of, lemma_with_check_digit_validates, with_check_digit,
};
use layout::field;
use manual::{lemma_chunks_of_record, ManualCodeData};
use qr::{has_qr_prefix, lemma_qr_record_round_trip, parse_qr_symbols, reversed, QrCodeData};
use vstd::arithmetic::power2::*;
use vstd::prelude::*;
use vstd::string::StringExecFns;
use vstd::utf8::{is_ascii_chars, is_ascii_chars_encode_utf8};

verus! {

/// A setup payload: what a device shows so that it can be commissioned.
#[derive(Debug, Clone, Copy, PartialEq, Eq)]
pub struct SetupPayload {
    /// The long discriminator, 12 bits, where it is known.
    pub long_discriminator: Option<u16>,
    /// The short discriminator: the high 4 bits of the long one.
    pub short_discriminator: u8,
    /// The setup PIN code, 27 bits.
    pub pincode: u32,
    /// The discovery capabilities, a mask, where they are known.
    pub discovery: Option<u8>,
    /// The commissioning flow.
    pub flow: CommissioningFlow,
    /// The vendor id.
    pub vid: Option<u16>,
    /// The product id.
    pub pid: Option<u16>,
}

impl SetupPayload {
    /// The PIN code fits in 27 bits, the long discriminator in 12 and the
    /// short one in 4.
    pub open spec fn well_formed(self) -> bool {
        &&& self.pincode < 0x800_0000
        &&& self.short_discriminator < 16
        &&& self.long_discriminator matches Some(d) ==> d < 0x1000
    }

    /// What `new` returns. A discriminator of 0 counts as no long
    /// discriminator, a discovery mask of 0 as none, and no flow as the
    /// standard one.
    pub open spec fn new_spec(
        discriminator: u16,
        pincode: u32,
        rendezvous: Option<u8>,
        flow: Option<CommissioningFlow>,
        vid: Option<u16>,
        pid: Option<u16>,
    ) -> SetupPayload {
        SetupPayload {
            long_discriminator: if discriminator == 0 {
                None
            } else {
                Some(discriminator)
            },
            short_discriminator: (discriminator / 256) as u8,
            pincode,
            discovery: match rendezvous {
                Some(mask) => if mask != 0 {
                    Some(mask)
                } else {
                    None
                },
                None => None,
            },
            flow: match flow {
                Some(flow) => flow,
                None => CommissioningFlow::Standard,
            },
            vid,
            pid,
        }
    }

    /// The payload of the record of a QR code.
    pub open spec fn of_qr(data: QrCodeData) -> SetupPayload {
        Self::new_spec(
            data.discriminator,
            data.pincode,
            Some(data.discovery),
            Some(data.flow),
            Some(data.vid),
            Some(data.pid),
        )
    }

    /// The payload of the record of a manual code. The record holds the
    /// short discriminator only and no discovery mask. Of the flow it tells
    /// no more than whether vendor and product id are there: if so, the flow
    /// is taken to be the custom one, else the standard one.
    pub open spec fn of_manual(data: ManualCodeData) -> SetupPayload
        recommends
            data.pincode_lsb < 0x4000,
            data.pincode_msb < 0x2000,
    {
        SetupPayload {
            long_discriminator: None,
            short_discriminator: data.discriminator,
            pincode: (data.pincode_msb * 0x4000 + data.pincode_lsb) as u32,
            discovery: None,
            flow: if data.vid_pid_present != 0 {
                CommissioningFlow::Custom
            } else {
                CommissioningFlow::Standard
            },
            vid: if data.vid_pid_present != 0 {
                data.vid
            } else {
                None
            },
            pid: if data.vid_pid_present != 0 {
                data.pid
            } else {
                None
            },
        }
    }

    /// What `parse_str` returns: a text that begins with `MT:` is read as a
    /// QR code, any other as a manual code.
    pub open spec fn parse_spec(payload: Seq<char>) -> Result<
        SetupPayload,
        MatterPayloadErrorView,
    > {
        if has_qr_prefix(payload) {
            match QrCodeData::parse_spec(payload) {
                Ok(data) => Ok(Self::of_qr(data)),
                Err(e) => Err(e@),
            }
        } else {
            match ManualCodeData::parse_spec(payload) {
                Ok(data) => Ok(Self::of_manual(data)),
                Err(e) => Err(e),
            }
        }
    }

    /// The record of the payload's QR code; `None` where the payload lacks
    /// the vendor id, the product id, the discovery mask or the long
    /// discriminator.
    pub open spec fn qr_record(self) -> Option<QrCodeData> {
        match (self.vid, self.pid, self.discovery, self.long_discriminator) {
            (Some(vid), Some(pid), Some(discovery), Some(discriminator)) => Some(
                QrCodeData {
                    padding: 0,
                    pincode: self.pincode,
                    discriminator,
                    discovery,
                    flow: self.flow,
                    pid,
                    vid,
                    version: 0,
                },
            ),
            _ => None,
        }
    }

    /// What `to_qr_code_str` returns: `MT:` and the Base38 text of the
    /// record's bytes in reverse order.
    pub open spec fn qr_code_spec(self) -> Result<Seq<char>, MatterPayloadError> {
        match self.qr_record() {
            None => Err(MatterPayloadError::Payload(PayloadError::MissingRequiredField)),
            Some(data) => match data.to_bytes_spec() {
                Err(e) => Err(e),
                Ok(bytes) => Ok(seq!['M', 'T', ':'] + encode_spec(bytes.reverse())),
            },
        }
    }

    /// The discriminator that goes into the manual code: the short one, but
    /// the long one where the short one is 0 and the long one is below 16.
    pub open spec fn manual_discriminator(self) -> u8 {
        let long = match self.long_discriminator {
            Some(d) => d,
            None => 0,
        };
        if self.short_discriminator == 0 && long <= 15 {
            long as u8
        } else {
            self.short_discriminator
        }
    }

    /// What `to_manual_code_str` returns: three chunks of 1, 5 and 4 decimal
    /// digits and the check digit. The first chunk holds the flag (4 where
    /// the flow is not the standard one) and the two high bits of the
    /// discriminator, the second its two low bits above the low 14 bits of
    /// the PIN code, the third the next 13 bits of the PIN code.
    pub open spec fn manual_code_spec(self) -> Result<Seq<char>, MatterPayloadError> {
        let discriminator = self.manual_discriminator();
        if discriminator > 15 {
            Err(MatterPayloadError::Payload(PayloadError::DiscriminatorOutOfRange(discriminator)))
        } else {
            let flag: nat = if self.flow == CommissioningFlow::Standard {
                0
            } else {
                1
            };
            let chunk1: nat = flag * 4 + discriminator as nat / 4;
            let chunk2: nat = (discriminator as nat % 4) * 0x4000 + self.pincode as nat % 0x4000;
            let chunk3: nat = (self.pincode as nat / 0x4000) % 0x2000;
            Ok(
                with_check_digit(
                    decimal_text(chunk1, 1) + decimal_text(chunk2, 5) + decimal_text(chunk3, 4),
                ),
            )
        }
    }

    /// A payload from its parts.
    ///
    /// `discriminator` is the long discriminator, 12 bits; 0 stands for
    /// none. `rendezvous` is the discovery mask; 0 stands for none. No
    /// `flow` stands for the standard one.
    pub fn new(
        discriminator: u16,
        pincode: u32,
        rendezvous: Option<u8>,
        flow: Option<CommissioningFlow>,
        vid: Option<u16>,
        pid: Option<u16>,
    ) -> (payload: SetupPayload)
        ensures
            payload == Self::new_spec(discriminator, pincode, rendezvous, flow, vid, pid),
            discriminator < 0x1000 && pincode < 0x800_0000 ==> payload.well_formed(),
    {
        let long_discriminator = if discriminator == 0 {
            None
        } else {
            Some(discriminator)
        };
        assert(discriminator >> 8 == discriminator / 256) by (bit_vector);
        let short_discriminator = (discriminator >> 8) as u8;
        let discovery = match rendezvous {
            Some(mask) => if mask != 0 {
                Some(mask)
            } else {
                None
            },
            None => None,
        };
        SetupPayload {
            long_discriminator,
            short_discriminator,
            pincode,
            discovery,
            flow: match flow {
                Some(flow) => flow,
                None => CommissioningFlow::Standard,
            },
            vid,
            pid,
        }
    }

    /// Parses a setup code: a QR code, which begins with `MT:`, or a manual
    /// pairing code of 11 or 21 digits.
    ///
    /// Fails as [`QrCodeData::parse_from_str`] and
    /// [`ManualCodeData::parse_from_str`] do.
    pub fn parse_str(payload_str: &str) -> (result: Result<SetupPayload, MatterPayloadError>)
        ensures
            match result {
                Ok(payload) => Self::parse_spec(payload_str@) == Ok::<
                    SetupPayload,
                    MatterPayloadErrorView,
                >(payload),
                Err(e) => Self::parse_spec(payload_str@) == Err::<
                    SetupPayload,
                    MatterPayloadErrorView,
                >(e@),
            },
    {
        let chars = chars_of(payload_str);
        if chars.len() >= 3 && chars[0] == 'M' && chars[1] == 'T' && chars[2] == ':' {
            let container = match parse_qr_symbols(chars.as_slice()) {
                Ok(container) => container,
                Err(e) => {
                    return Err(e);
                },
            };
            Ok(
                SetupPayload::new(
                    container.discriminator,
                    container.pincode,
                    Some(container.discovery),
                    Some(container.flow),
                    Some(container.vid),
                    Some(container.pid),
                ),
            )
        } else {
            let container = match ManualCodeData::parse_from_str(payload_str) {
                Ok(container) => container,
                Err(e) => {
                    return Err(e);
                },
            };
            let present = container.vid_pid_present != 0;
            let (lsb, msb) = (container.pincode_lsb as u32, container.pincode_msb as u32);
            assert((msb << 14) | lsb == msb * 0x4000 + lsb) by (bit_vector)
                requires
                    lsb < 0x4000,
                    msb < 0x2000,
            ;
            let mut payload = SetupPayload::new(
                container.discriminator as u16,
                (msb << 14) | lsb,
                None,
                if present {
                    Some(CommissioningFlow::Custom)
                } else {
                    None
                },
                if present {
                    container.vid
                } else {
                    None
                },
                if present {
                    container.pid
                } else {
                    None
                },
            );
            payload.short_discriminator = container.discriminator;
            payload.long_discriminator = None;
            payload.discovery = None;
            Ok(payload)
        }
    }

    /// The QR code of the payload: `MT:` and Base38 text.
    ///
    /// Fails with [`PayloadError::MissingRequiredField`] where the payload
    /// lacks the vendor id, the product id, the discovery mask or the long
    /// discriminator, and as [`QrCodeData::to_bytes`] does where the PIN code
    /// or the discriminator is too large for its field.
    pub fn to_qr_code_str(&self) -> (result: Result<String, MatterPayloadError>)
        ensures
            match result {
                Ok(code) => self.qr_code_spec() == Ok::<Seq<char>, MatterPayloadError>(code@),
                Err(e) => self.qr_code_spec() == Err::<Seq<char>, MatterPayloadError>(e),
            },
    {
        let qr_data = match (self.vid, self.pid, self.discovery, self.long_discriminator) {
            (Some(vid), Some(pid), Some(discovery), Some(discriminator)) => QrCodeData {
                version: 0,
                vid,
                pid,
                flow: self.flow,
                discovery,
                discriminator,
                pincode: self.pincode,
                padding: 0,
            },
            _ => {
                return Err(MatterPayloadError::Payload(PayloadError::MissingRequiredField));
            },
        };
        let bytes = match qr_data.to_bytes() {
            Ok(bytes) => bytes,
            Err(e) => {
                return Err(e);
            },
        };
        let record = reversed(bytes.as_slice());
        let encoded = encode(record.as_slice());
        let mut code = String::new();
        code.push('M');
        code.push('T');
        code.push(':');
        code.append(encoded.as_str());
        assert(code@ =~= seq!['M', 'T', ':'] + encoded@);
        Ok(code)
    }

    /// The manual pairing code of the payload: 11 decimal digits.
    ///
    /// The code holds the discriminator, the PIN code and the flag that
    /// tells whether the flow is the standard one. Vendor and product id
    /// are not written, whatever the flow.
    ///
    /// Fails with [`PayloadError::DiscriminatorOutOfRange`] where the
    /// discriminator that goes into the code is above 15.
    pub fn to_manual_code_str(&self) -> (result: Result<String, MatterPayloadError>)
        ensures
            match result {
                Ok(code) => self.manual_code_spec() == Ok::<Seq<char>, MatterPayloadError>(
                    code@,
                ),
                Err(e) => self.manual_code_spec() == Err::<Seq<char>, MatterPayloadError>(e),
            },
    {
        let long = match self.long_discriminator {
            Some(d) => d,
            None => 0,
        };
        let discriminator_val = if self.short_discriminator == 0 && long <= 15 {
            long as u8
        } else {
            self.short_discriminator
        };
        if discriminator_val > 15 {
            return Err(
                MatterPayloadError::Payload(
                    PayloadError::DiscriminatorOutOfRange(discriminator_val),
                ),
            );
        }
        let standard = self.flow == CommissioningFlow::Standard;
        let pincode = self.pincode;
        assert((pincode & 0x3FFF) == pincode % 0x4000 && ((pincode >> 14) & 0x1FFF) == (pincode
            / 0x4000) % 0x2000) by (bit_vector);
        let manual_code = ManualCodeData {
            version: 0,
            vid_pid_present: if standard {
                0
            } else {
                1
            },
            discriminator: discriminator_val,
            pincode_lsb: (pincode & 0x3FFF) as u16,
            pincode_msb: ((pincode >> 14) & 0x1FFF) as u16,
            vid: if standard {
                Some(0)
            } else {
                self.vid
            },
            pid: if standard {
                Some(0)
            } else {
                self.pid
            },
            padding: 0,
        };
        proof {
            lemma2_to64();
            lemma_chunks_of_record(manual_code);
        }
        // Write the record, spread its bytes out into bits again, and cut
        // the chunks out of them.
        let packed_bytes = match manual_code.to_bytes() {
            Ok(bytes) => bytes,
            Err(e) => {
                return Err(e);
            },
        };
        let bits = bytes_to_bits_be(packed_bytes.as_slice());
        let c1 = field(bits.as_slice(), 0, 4);
        let c2 = field(bits.as_slice(), 4, 16);
        let c3 = field(bits.as_slice(), 20, 13);
        let mut code_string = String::new();
        push_decimal(&mut code_string, c1, 1);
        push_decimal(&mut code_string, c2, 5);
        push_decimal(&mut code_string, c3, 4);
        proof {
            let (t1, t2, t3) = (
                decimal_text(c1 as nat, 1),
                decimal_text(c2 as nat, 5),
                decimal_text(c3 as nat, 4),
            );
            lemma_decimal_text_is_digits(c1 as nat, 1);
            lemma_decimal_text_is_digits(c2 as nat, 5);
            lemma_decimal_text_is_digits(c3 as nat, 4);
            assert(code_string@ =~= t1 + t2 + t3);
            assert(all_decimal_digits(code_string@)) by {
                assert forall|i: int| 0 <= i < code_string@.len() implies is_decimal_digit(
                    #[trigger] code_string@[i],
                ) by {
                    if i < 1 {
                        assert(code_string@[i] == t1[i]);
                    } else if i < 6 {
                        assert(code_string@[i] == t2[i - 1]);
                    } else {
                        assert(code_string@[i] == t3[i - 6]);
                    }
                }
            }
            lemma_digits_of(code_string@);
        }
        let checksum_digit = match calculate_checksum(code_string.as_str()) {
            Ok(digit) => digit,
            Err(e) => {
                return Err(e);
            },
        };
        code_string.push(from_digit(checksum_digit));
        Ok(code_string)
    }
}

/// A QR code that is generated and parsed again gives the payload it was
/// generated from.
///
/// This holds of a payload as `new` makes it out of a discriminator between
/// 1 and 4095, a PIN code of 27 bits, a discovery mask that is not 0, a
/// vendor id and a product id.
pub proof fn lemma_qr_code_round_trip(payload: SetupPayload)
    requires
        payload.well_formed(),
        payload.long_discriminator matches Some(d) && d != 0 && payload.short_discriminator == d
            / 256,
        payload.discovery matches Some(mask) && mask != 0,
        payload.vid is Some,
        payload.pid is Some,
    ensures
        payload.qr_code_spec() matches Ok(code) && SetupPayload::parse_spec(code) == Ok::<
            SetupPayload,
            MatterPayloadErrorView,
        >(payload),
{
    let data = payload.qr_record()->0;
    lemma2_to64();
    lemma_qr_record_round_trip(data);
    let bytes = packed_bytes(data.bits());
    let text = encode_spec(bytes.reverse());
    let code = seq!['M', 'T', ':'] + text;
    assert(code.skip(3) =~= text);
    lemma_round_trip(bytes.reverse());
    assert(bytes.reverse().reverse() =~= bytes);
}

/// A manual code that is generated and parsed again gives the discriminator
/// that went into the code and the low 27 bits of the PIN code, where the
/// flow is the standard one. What else the payload held is not in the code.
pub proof fn lemma_manual_code_round_trip(payload: SetupPayload)
    requires
        payload.flow == CommissioningFlow::Standard,
        payload.manual_discriminator() <= 15,
    ensures
        payload.manual_code_spec() matches Ok(code) && code.len() == 11
            && SetupPayload::parse_spec(code) == Ok::<SetupPayload, MatterPayloadErrorView>(
            SetupPayload {
                long_discriminator: None,
                short_discriminator: payload.manual_discriminator(),
                pincode: (payload.pincode % 0x800_0000) as u32,
                discovery: None,
                flow: CommissioningFlow::Standard,
                vid: None,
                pid: None,
            },
        ),
{
    let discriminator = payload.manual_discriminator() as nat;
    let pincode = payload.pincode as nat;
    let chunk1: nat = discriminator / 4;
    let chunk2: nat = (discriminator % 4) * 0x4000 + pincode % 0x4000;
    let chunk3: nat = (pincode / 0x4000) % 0x2000;
    let (t1, t2, t3) = (decimal_text(chunk1, 1), decimal_text(chunk2, 5), decimal_text(chunk3, 4));
    let base = t1 + t2 + t3;
    let code = with_check_digit(base);
    // The code holds eleven decimal digits and is valid.
    lemma_decimal_text_is_digits(chunk1, 1);
    lemma_decimal_text_is_digits(chunk2, 5);
    lemma_decimal_text_is_digits(chunk3, 4);
    assert(all_decimal_digits(base)) by {
        assert forall|i: int| 0 <= i < base.len() implies is_decimal_digit(#[trigger] base[i]) by {
            if i < 1 {
                assert(base[i] == t1[i]);
            } else if i < 6 {
                assert(base[i] == t2[i - 1]);
            } else {
                assert(base[i] == t3[i - 6]);
            }
        }
    }
    lemma_with_check_digit_validates(base);
    assert(is_ascii_chars(code)) by {
        assert forall|i: int| 0 <= i < code.len() implies '\0' <= #[trigger] code[i]
            <= '\u{7f}' by {
            assert(is_decimal_digit(code[i]));
        }
    }
    is_ascii_chars_encode_utf8(code);
    assert(is_decimal_digit(code[0]));
    // Its chunks are the numbers that were written.
    assert(pow10(0) == 1);
    assert(code[0] == t1[0]);
    assert(digit_value(code[0]) == chunk1);
    assert(code.subrange(1, 6) =~= t2);
    assert(code.subrange(6, 10) =~= t3);
    assert(pow10(5) == 100_000 && pow10(4) == 10_000) by {
        reveal_with_fuel(pow10, 6);
    }
    lemma_decimal_value_of_text(chunk2, 5);
    lemma_decimal_value_of_text(chunk3, 4);
}

} // verus!
