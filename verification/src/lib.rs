//! Matter setup codes: the `MT:` QR text and the 11- or 21-digit manual
//! pairing code, generated from and parsed into a [`SetupPayload`].

pub mod base38;
pub mod bit_utils;
pub mod error;
pub mod payload;
pub mod text;
pub mod verhoeff;

pub use error::MatterPayloadError;
pub use payload::{CommissioningFlow, SetupPayload};
