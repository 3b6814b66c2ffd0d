//! The error types of the library.
//!
//! Each component has an error enum of its own; [`MatterPayloadError`] wraps
//! them, so that the cause of a failure stays inspectable at the top.

use vstd::prelude::*;

verus! {

/// Failures of Base38 decoding.
#[derive(Debug, PartialEq, Eq)]
pub enum Base38DecodeError {
    /// A symbol outside the Base38 alphabet.
    InvalidCharacter(char),
    /// A chunk whose length is none of 2, 4 and 5.
    InvalidChunkLength(usize),
    /// A chunk that spells a number too large for the bytes it stands for.
    ValueOutOfRange { value: u64, digits: usize, expected_bytes: usize },
}

/// Failures of the check-digit algorithm.
#[derive(Debug, PartialEq, Eq)]
pub enum VerhoeffError {
    /// A character that is no decimal digit.
    InvalidCharacter(char),
    /// The input holds no character at all.
    EmptyInput,
}

/// Failures of the bit utilities.
#[derive(Debug, PartialEq, Eq)]
pub enum BitUtilsError {
    /// `value` needs more than `bits` bits.
    ValueOverflow { value: u64, bits: usize },
}

/// Failures of reading or writing one of the two fixed bit layouts.
#[derive(Debug, PartialEq, Eq)]
pub enum LayoutError {
    /// The input ended before the record did.
    Incomplete,
    /// A field holds a value that its width cannot carry.
    FieldOverflow { value: u64, bits: usize },
    /// The two flow bits hold a tag that names no commissioning flow.
    UnknownFlow(u8),
}

/// Failures of parsing or generating a setup code.
#[derive(Debug, PartialEq, Eq)]
pub enum PayloadError {
    /// A manual code that is neither 11 nor 21 bytes long.
    InvalidManualCodeLength(usize),
    /// A manual code whose check digit does not fit its other digits.
    InvalidManualCodeChecksum,
    /// A manual code that lacks the digits its form calls for; holds the code.
    InvalidManualCodeDigit(String),
    /// A manual code whose first digit is above 7.
    InvalidManualCodePrefix,
    /// A QR code that does not begin with `MT:`.
    InvalidQrCodePrefix,
    /// A discriminator that the four bits of a manual code cannot carry.
    DiscriminatorOutOfRange(u8),
    /// A QR code was asked of a payload without vendor id, product id,
    /// discovery mask or long discriminator.
    MissingRequiredField,
}

/// What a [`PayloadError`] is in contracts: the same cases, text as `Seq<char>`.
pub enum PayloadErrorView {
    InvalidManualCodeLength(usize),
    InvalidManualCodeChecksum,
    InvalidManualCodeDigit(Seq<char>),
    InvalidManualCodePrefix,
    InvalidQrCodePrefix,
    DiscriminatorOutOfRange(u8),
    MissingRequiredField,
}

impl View for PayloadError {
    type V = PayloadErrorView;

    open spec fn view(&self) -> PayloadErrorView {
        match self {
            PayloadError::InvalidManualCodeLength(n) => PayloadErrorView::InvalidManualCodeLength(
                *n,
            ),
            PayloadError::InvalidManualCodeChecksum => PayloadErrorView::InvalidManualCodeChecksum,
            PayloadError::InvalidManualCodeDigit(text) => PayloadErrorView::InvalidManualCodeDigit(
                text@,
            ),
            PayloadError::InvalidManualCodePrefix => PayloadErrorView::InvalidManualCodePrefix,
            PayloadError::InvalidQrCodePrefix => PayloadErrorView::InvalidQrCodePrefix,
            PayloadError::DiscriminatorOutOfRange(d) => PayloadErrorView::DiscriminatorOutOfRange(
                *d,
            ),
            PayloadError::MissingRequiredField => PayloadErrorView::MissingRequiredField,
        }
    }
}

/// The error of every fallible function of the library.
#[derive(Debug, PartialEq, Eq)]
pub enum MatterPayloadError {
    /// Base38 decoding failed.
    Base38(Base38DecodeError),
    /// The check-digit algorithm refused its input.
    Verhoeff(VerhoeffError),
    /// A bit utility failed.
    BitUtils(BitUtilsError),
    /// A setup code could not be parsed or generated.
    Payload(PayloadError),
    /// A bit layout could not be read or written.
    Layout(LayoutError),
}

/// What a [`MatterPayloadError`] is in contracts.
pub enum MatterPayloadErrorView {
    Base38(Base38DecodeError),
    Verhoeff(VerhoeffError),
    BitUtils(BitUtilsError),
    Payload(PayloadErrorView),
    Layout(LayoutError),
}

impl View for MatterPayloadError {
    type V = MatterPayloadErrorView;

    open spec fn view(&self) -> MatterPayloadErrorView {
        match self {
            MatterPayloadError::Base38(e) => MatterPayloadErrorView::Base38(*e),
            MatterPayloadError::Verhoeff(e) => MatterPayloadErrorView::Verhoeff(*e),
            MatterPayloadError::BitUtils(e) => MatterPayloadErrorView::BitUtils(*e),
            MatterPayloadError::Payload(e) => MatterPayloadErrorView::Payload(e@),
            MatterPayloadError::Layout(e) => MatterPayloadErrorView::Layout(*e),
        }
    }
}

impl From<Base38DecodeError> for MatterPayloadError {
    fn from(e: Base38DecodeError) -> (r: MatterPayloadError)
        ensures
            r == MatterPayloadError::Base38(e),
    {
        MatterPayloadError::Base38(e)
    }
}

impl vstd::std_specs::convert::FromSpecImpl<Base38DecodeError> for MatterPayloadError {
    open spec fn obeys_from_spec() -> bool {
        true
    }

    open spec fn from_spec(e: Base38DecodeError) -> MatterPayloadError {
        MatterPayloadError::Base38(e)
    }
}

impl From<VerhoeffError> for MatterPayloadError {
    fn from(e: VerhoeffError) -> (r: MatterPayloadError)
        ensures
            r == MatterPayloadError::Verhoeff(e),
    {
        MatterPayloadError::Verhoeff(e)
    }
}

impl vstd::std_specs::convert::FromSpecImpl<VerhoeffError> for MatterPayloadError {
    open spec fn obeys_from_spec() -> bool {
        true
    }

    open spec fn from_spec(e: VerhoeffError) -> MatterPayloadError {
        MatterPayloadError::Verhoeff(e)
    }
}

impl From<BitUtilsError> for MatterPayloadError {
    fn from(e: BitUtilsError) -> (r: MatterPayloadError)
        ensures
            r == MatterPayloadError::BitUtils(e),
    {
        MatterPayloadError::BitUtils(e)
    }
}

impl vstd::std_specs::convert::FromSpecImpl<BitUtilsError> for MatterPayloadError {
    open spec fn obeys_from_spec() -> bool {
        true
    }

    open spec fn from_spec(e: BitUtilsError) -> MatterPayloadError {
        MatterPayloadError::BitUtils(e)
    }
}

impl From<PayloadError> for MatterPayloadError {
    fn from(e: PayloadError) -> (r: MatterPayloadError)
        ensures
            r == MatterPayloadError::Payload(e),
    {
        MatterPayloadError::Payload(e)
    }
}

impl vstd::std_specs::convert::FromSpecImpl<PayloadError> for MatterPayloadError {
    open spec fn obeys_from_spec() -> bool {
        true
    }

    open spec fn from_spec(e: PayloadError) -> MatterPayloadError {
        MatterPayloadError::Payload(e)
    }
}

impl From<LayoutError> for MatterPayloadError {
    fn from(e: LayoutError) -> (r: MatterPayloadError)
        ensures
            r == MatterPayloadError::Layout(e),
    {
        MatterPayloadError::Layout(e)
    }
}

impl vstd::std_specs::convert::FromSpecImpl<LayoutError> for MatterPayloadError {
    open spec fn obeys_from_spec() -> bool {
        true
    }

    open spec fn from_spec(e: LayoutError) -> MatterPayloadError {
        MatterPayloadError::Layout(e)
    }
}

} // verus!
