use matter_setup_code::error::{
    Base38DecodeError, BitUtilsError, LayoutError, MatterPayloadError, PayloadError, VerhoeffError,
};
use matter_setup_code::{CommissioningFlow, SetupPayload};

// A standard payload for consistent testing
fn standard_payload() -> SetupPayload {
    SetupPayload {
        short_discriminator: 4,
        long_discriminator: Some(1132),
        pincode: 69414998,
        vid: Some(0xfff1),
        pid: Some(0x8000),
        flow: CommissioningFlow::Standard,
        discovery: Some(4),
    }
}

#[test]
fn test_qr_code_roundtrip() {
    let original_payload = standard_payload();
    let qr_str = original_payload.to_qr_code_str().unwrap();

    // chip-tool payload generate -d 1132 -p 69414998 -vid 65521 -pid 32768 -dm 4 -cf 0
    // Manualcode : 11237442363
    // QRCode     : MT:Y.K904QI143LH13SH10
    assert_eq!(qr_str, "MT:Y.K904QI143LH13SH10");

    let parsed_payload = SetupPayload::parse_str(&qr_str).unwrap();
    assert_eq!(original_payload, parsed_payload);
}

#[test]
fn test_manual_code_roundtrip() {
    let original_payload = standard_payload();

    let manual_str = original_payload.to_manual_code_str().unwrap();

    assert_eq!(manual_str, "11237442363");

    let parsed_payload = SetupPayload::parse_str(&manual_str).unwrap();

    assert_eq!(
        original_payload.short_discriminator,
        parsed_payload.short_discriminator
    );
    assert_eq!(original_payload.pincode, parsed_payload.pincode);
}

#[test]
fn test_short_manual_code() {
    let payload = SetupPayload {
        short_discriminator: 4,
        long_discriminator: None,
        vid: None,
        pid: None,
        pincode: 69414998,
        flow: CommissioningFlow::Standard,
        discovery: Some(0),
    };
    let manual_str = payload.to_manual_code_str().unwrap();
    assert_eq!(manual_str, "11237442363");

    let parsed = SetupPayload::parse_str(&manual_str).unwrap();
    assert_eq!(payload.short_discriminator, parsed.short_discriminator);
    assert_eq!(payload.pincode, parsed.pincode);
}

#[test]
fn test_invalid_manual_code_errors() {
    // Invalid length
    let err = SetupPayload::parse_str("12345").unwrap_err();
    assert!(matches!(
        err,
        MatterPayloadError::Payload(PayloadError::InvalidManualCodeLength(5))
    ));

    // Invalid checksum
    let err = SetupPayload::parse_str("20000000031").unwrap_err();
    assert!(matches!(
        err,
        MatterPayloadError::Payload(PayloadError::InvalidManualCodeChecksum)
    ));
}

#[test]
fn test_new_fills_the_fields() {
    let payload = SetupPayload::new(
        1132,
        69414998,
        Some(4),
        Some(CommissioningFlow::UserIntent),
        Some(0xfff1),
        Some(0x8000),
    );
    assert_eq!(
        payload,
        SetupPayload {
            long_discriminator: Some(1132),
            short_discriminator: 4,
            pincode: 69414998,
            discovery: Some(4),
            flow: CommissioningFlow::UserIntent,
            vid: Some(0xfff1),
            pid: Some(0x8000),
        }
    );
    assert_eq!(SetupPayload::new(1132, 69414998, Some(4), None, Some(0xfff1), Some(0x8000)),
        standard_payload());
}

#[test]
fn test_new_takes_zero_for_none() {
    let payload = SetupPayload::new(0, 1, Some(0), None, None, None);
    assert_eq!(
        payload,
        SetupPayload {
            long_discriminator: None,
            short_discriminator: 0,
            pincode: 1,
            discovery: None,
            flow: CommissioningFlow::Standard,
            vid: None,
            pid: None,
        }
    );
    assert_eq!(SetupPayload::new(0xABCD, 0, None, None, None, None).short_discriminator, 0xAB);
    assert_eq!(SetupPayload::new(3840, 0, None, None, None, None).short_discriminator, 15);
    assert_eq!(SetupPayload::new(255, 0, None, None, None, None).short_discriminator, 0);
    assert_eq!(SetupPayload::new(255, 0, None, None, None, None).long_discriminator, Some(255));
}

#[test]
fn test_parse_qr_code_fields() {
    let payload = SetupPayload::parse_str("MT:Y.K904QI143LH13SH10").unwrap();
    assert_eq!(payload.long_discriminator, Some(1132));
    assert_eq!(payload.short_discriminator, 4);
    assert_eq!(payload.pincode, 69414998);
    assert_eq!(payload.vid, Some(0xFFF1));
    assert_eq!(payload.pid, Some(0x8000));
    assert_eq!(payload.discovery, Some(4));
    assert_eq!(payload.flow, CommissioningFlow::Standard);

    let payload = SetupPayload::parse_str("MT:-24J042C00KA0648G00").unwrap();
    assert_eq!(
        payload,
        SetupPayload {
            long_discriminator: Some(3840),
            short_discriminator: 15,
            pincode: 20202021,
            discovery: Some(2),
            flow: CommissioningFlow::Standard,
            vid: Some(0xFFF1),
            pid: Some(0x8001),
        }
    );

    // Every field at its highest value.
    let payload = SetupPayload::parse_str("MT:ILS18T5R18PLS18TV20").unwrap();
    assert_eq!(
        payload,
        SetupPayload {
            long_discriminator: Some(4095),
            short_discriminator: 15,
            pincode: (1 << 27) - 1,
            discovery: Some(255),
            flow: CommissioningFlow::Custom,
            vid: Some(0xFFFF),
            pid: Some(0xFFFF),
        }
    );
    assert_eq!(payload.to_qr_code_str().unwrap(), "MT:ILS18T5R18PLS18TV20");

    // Every field 1.
    let payload = SetupPayload::parse_str("MT:A3L90QFF01ID0000000").unwrap();
    assert_eq!(
        payload,
        SetupPayload {
            long_discriminator: Some(1),
            short_discriminator: 0,
            pincode: 1,
            discovery: Some(1),
            flow: CommissioningFlow::UserIntent,
            vid: Some(1),
            pid: Some(1),
        }
    );
    assert_eq!(payload.to_qr_code_str().unwrap(), "MT:A3L90QFF01ID0000000");
}

#[test]
fn test_parse_qr_code_of_zeros() {
    // A record of zeros: no long discriminator and no discovery mask.
    let payload = SetupPayload::parse_str("MT:0000000000000000000").unwrap();
    assert_eq!(
        payload,
        SetupPayload {
            long_discriminator: None,
            short_discriminator: 0,
            pincode: 0,
            discovery: None,
            flow: CommissioningFlow::Standard,
            vid: Some(0),
            pid: Some(0),
        }
    );
}

#[test]
fn test_parse_qr_code_ignores_padding_version_and_more_bytes() {
    // Padding 9 and version 5.
    let payload = SetupPayload::parse_str("MT:10L9004K143LH13W.Q0").unwrap();
    assert_eq!(payload.pincode, 69414998);
    assert_eq!(payload.long_discriminator, Some(1132));
    assert_eq!(payload.flow, CommissioningFlow::UserIntent);
    // One byte more than the record has.
    let payload = SetupPayload::parse_str("MT:TF718LVO54YB3G56LX90").unwrap();
    assert_eq!(payload, standard_payload());
}

#[test]
fn test_parse_qr_code_errors() {
    assert_eq!(
        SetupPayload::parse_str("MT:").unwrap_err(),
        MatterPayloadError::Layout(LayoutError::Incomplete)
    );
    assert_eq!(
        SetupPayload::parse_str("MT:10").unwrap_err(),
        MatterPayloadError::Layout(LayoutError::Incomplete)
    );
    // Ten bytes of zeros: one short of a record.
    assert_eq!(
        SetupPayload::parse_str("MT:00000000000000000").unwrap_err(),
        MatterPayloadError::Layout(LayoutError::Incomplete)
    );
    assert_eq!(
        SetupPayload::parse_str("MT:0000000000000000").unwrap_err(),
        MatterPayloadError::Base38(Base38DecodeError::InvalidChunkLength(1))
    );
    // Eleven and twelve bytes of zeros.
    assert!(SetupPayload::parse_str("MT:0000000000000000000").is_ok());
    assert!(SetupPayload::parse_str("MT:00000000000000000000").is_ok());
    assert_eq!(
        SetupPayload::parse_str("MT:Y.K904QI143LH13S@10").unwrap_err(),
        MatterPayloadError::Base38(Base38DecodeError::InvalidCharacter('@'))
    );
    assert_eq!(
        SetupPayload::parse_str("MT:ZZZZZ").unwrap_err(),
        MatterPayloadError::Base38(Base38DecodeError::ValueOutOfRange {
            value: 74952185,
            digits: 5,
            expected_bytes: 3
        })
    );
    // The two flow bits hold 3.
    assert_eq!(
        SetupPayload::parse_str("MT:CQG020YH26ET1000000").unwrap_err(),
        MatterPayloadError::Layout(LayoutError::UnknownFlow(3))
    );
    // Seven bytes: the flow is read before the record is found too short.
    assert_eq!(
        SetupPayload::parse_str("MT:08Y00A000000").unwrap_err(),
        MatterPayloadError::Layout(LayoutError::UnknownFlow(3))
    );
    assert_eq!(
        SetupPayload::parse_str("MT:M7Y00A000000").unwrap_err(),
        MatterPayloadError::Layout(LayoutError::Incomplete)
    );
}

#[test]
fn test_parse_dispatches_on_the_prefix() {
    // Without the prefix in capitals the text is read as a manual code.
    assert_eq!(
        SetupPayload::parse_str("mt:Y.K904QI143LH13SH10").unwrap_err(),
        MatterPayloadError::Payload(PayloadError::InvalidManualCodeLength(22))
    );
    assert_eq!(
        SetupPayload::parse_str("").unwrap_err(),
        MatterPayloadError::Payload(PayloadError::InvalidManualCodeLength(0))
    );
    assert_eq!(
        SetupPayload::parse_str("MT").unwrap_err(),
        MatterPayloadError::Payload(PayloadError::InvalidManualCodeLength(2))
    );
    assert_eq!(
        SetupPayload::parse_str("MT-00000000").unwrap_err(),
        MatterPayloadError::Verhoeff(VerhoeffError::InvalidCharacter('M'))
    );
}

#[test]
fn test_parse_manual_code_fields() {
    assert_eq!(
        SetupPayload::parse_str("11237442363").unwrap(),
        SetupPayload {
            long_discriminator: None,
            short_discriminator: 4,
            pincode: 69414998,
            discovery: None,
            flow: CommissioningFlow::Standard,
            vid: None,
            pid: None,
        }
    );
    assert_eq!(
        SetupPayload::parse_str("34970112332").unwrap(),
        SetupPayload {
            long_discriminator: None,
            short_discriminator: 15,
            pincode: 20202021,
            discovery: None,
            flow: CommissioningFlow::Standard,
            vid: None,
            pid: None,
        }
    );
    // The highest numbers that the chunks can hold.
    assert_eq!(
        SetupPayload::parse_str("36553581917").unwrap(),
        SetupPayload {
            long_discriminator: None,
            short_discriminator: 15,
            pincode: (1 << 27) - 1,
            discovery: None,
            flow: CommissioningFlow::Standard,
            vid: None,
            pid: None,
        }
    );
    assert_eq!(SetupPayload::parse_str("00000000005").unwrap().pincode, 0);
}

#[test]
fn test_parse_long_manual_code() {
    assert_eq!(
        SetupPayload::parse_str("749701123365521327694").unwrap(),
        SetupPayload {
            long_discriminator: None,
            short_discriminator: 15,
            pincode: 20202021,
            discovery: None,
            flow: CommissioningFlow::Custom,
            vid: Some(65521),
            pid: Some(32769),
        }
    );
}

#[test]
fn test_parse_short_form_of_21_digits() {
    // 21 digits, but the first digit calls for the short form: the digits
    // after the tenth count for the check digit only.
    assert_eq!(
        SetupPayload::parse_str("000001000200000000008").unwrap(),
        SetupPayload {
            long_discriminator: None,
            short_discriminator: 0,
            pincode: (2 << 14) | 1,
            discovery: None,
            flow: CommissioningFlow::Standard,
            vid: None,
            pid: None,
        }
    );
}

#[test]
fn test_parse_manual_code_errors() {
    for (text, len) in [("1", 1), ("1123744236", 10), ("112374423630", 12), ("é123456789", 11)] {
        let expected = if text.len() == 11 {
            MatterPayloadError::Verhoeff(VerhoeffError::InvalidCharacter('é'))
        } else {
            MatterPayloadError::Payload(PayloadError::InvalidManualCodeLength(len))
        };
        assert_eq!(SetupPayload::parse_str(text).unwrap_err(), expected);
    }
    // Eleven characters, twelve bytes.
    assert_eq!(
        SetupPayload::parse_str("é1234567890").unwrap_err(),
        MatterPayloadError::Payload(PayloadError::InvalidManualCodeLength(12))
    );
    assert_eq!(
        SetupPayload::parse_str("1123744236x").unwrap_err(),
        MatterPayloadError::Verhoeff(VerhoeffError::InvalidCharacter('x'))
    );
    assert_eq!(
        SetupPayload::parse_str("11237442364").unwrap_err(),
        MatterPayloadError::Payload(PayloadError::InvalidManualCodeChecksum)
    );
    assert_eq!(
        SetupPayload::parse_str("80000000001").unwrap_err(),
        MatterPayloadError::Payload(PayloadError::InvalidManualCodePrefix)
    );
    assert_eq!(
        SetupPayload::parse_str("90000000003").unwrap_err(),
        MatterPayloadError::Payload(PayloadError::InvalidManualCodePrefix)
    );
    // The long form is called for, but the code has eleven digits.
    assert_eq!(
        SetupPayload::parse_str("40000000007").unwrap_err(),
        MatterPayloadError::Payload(PayloadError::InvalidManualCodeDigit(
            "40000000007".to_string()
        ))
    );
    // Chunks that spell more than their bits hold.
    assert_eq!(
        SetupPayload::parse_str("09999900009").unwrap_err(),
        MatterPayloadError::BitUtils(BitUtilsError::ValueOverflow { value: 99999, bits: 16 })
    );
    assert_eq!(
        SetupPayload::parse_str("00000099996").unwrap_err(),
        MatterPayloadError::BitUtils(BitUtilsError::ValueOverflow { value: 9999, bits: 13 })
    );
    assert_eq!(
        SetupPayload::parse_str("400000000099999000006").unwrap_err(),
        MatterPayloadError::BitUtils(BitUtilsError::ValueOverflow { value: 99999, bits: 16 })
    );
    assert_eq!(
        SetupPayload::parse_str("400000000000000999994").unwrap_err(),
        MatterPayloadError::BitUtils(BitUtilsError::ValueOverflow { value: 99999, bits: 16 })
    );
}

#[test]
fn test_qr_code_needs_every_field() {
    let complete = standard_payload();
    let missing = MatterPayloadError::Payload(PayloadError::MissingRequiredField);
    assert_eq!(
        SetupPayload { vid: None, ..complete.clone() }.to_qr_code_str().unwrap_err(),
        missing
    );
    assert_eq!(
        SetupPayload { pid: None, ..complete.clone() }.to_qr_code_str().unwrap_err(),
        missing
    );
    assert_eq!(
        SetupPayload { discovery: None, ..complete.clone() }.to_qr_code_str().unwrap_err(),
        missing
    );
    assert_eq!(
        SetupPayload { long_discriminator: None, ..complete.clone() }
            .to_qr_code_str()
            .unwrap_err(),
        missing
    );
    // What `new` takes for none is missing too.
    assert_eq!(
        SetupPayload::new(0, 1, Some(4), None, Some(1), Some(1)).to_qr_code_str().unwrap_err(),
        missing
    );
}

#[test]
fn test_qr_code_field_overflow() {
    let complete = standard_payload();
    assert_eq!(
        SetupPayload { pincode: 1 << 27, ..complete.clone() }.to_qr_code_str().unwrap_err(),
        MatterPayloadError::Layout(LayoutError::FieldOverflow { value: 1 << 27, bits: 27 })
    );
    assert_eq!(
        SetupPayload { long_discriminator: Some(4096), ..complete.clone() }
            .to_qr_code_str()
            .unwrap_err(),
        MatterPayloadError::Layout(LayoutError::FieldOverflow { value: 4096, bits: 12 })
    );
    // The PIN code stands before the discriminator.
    assert_eq!(
        SetupPayload { pincode: u32::MAX, long_discriminator: Some(u16::MAX), ..complete }
            .to_qr_code_str()
            .unwrap_err(),
        MatterPayloadError::Layout(LayoutError::FieldOverflow {
            value: u32::MAX as u64,
            bits: 27
        })
    );
}

#[test]
fn test_qr_code_of_other_flows() {
    let payload = SetupPayload {
        long_discriminator: Some(3840),
        short_discriminator: 15,
        pincode: 20202021,
        discovery: Some(2),
        flow: CommissioningFlow::Standard,
        vid: Some(0xFFF1),
        pid: Some(0x8001),
    };
    assert_eq!(payload.to_qr_code_str().unwrap(), "MT:-24J042C00KA0648G00");
    for flow in [
        CommissioningFlow::Standard,
        CommissioningFlow::UserIntent,
        CommissioningFlow::Custom,
    ] {
        let payload = SetupPayload { flow, ..payload.clone() };
        let code = payload.to_qr_code_str().unwrap();
        assert!(code.starts_with("MT:"));
        assert_eq!(code.len(), 22);
        assert_eq!(SetupPayload::parse_str(&code).unwrap(), payload);
    }
}

#[test]
fn test_manual_code_discriminator() {
    let base = SetupPayload {
        long_discriminator: None,
        short_discriminator: 0,
        pincode: 69414998,
        discovery: None,
        flow: CommissioningFlow::Standard,
        vid: None,
        pid: None,
    };
    assert_eq!(base.to_manual_code_str().unwrap(), "01237442360");
    // The short discriminator is 0 and the long one is small: the long one is written.
    let payload = SetupPayload { long_discriminator: Some(5), ..base.clone() };
    assert_eq!(payload.to_manual_code_str().unwrap(), "12875842369");
    let payload = SetupPayload { long_discriminator: Some(15), ..base.clone() };
    assert_eq!(SetupPayload::parse_str(&payload.to_manual_code_str().unwrap())
        .unwrap()
        .short_discriminator, 15);
    // The long one is too large for that: the short one is written.
    let payload = SetupPayload { long_discriminator: Some(16), ..base.clone() };
    assert_eq!(payload.to_manual_code_str().unwrap(), "01237442360");
    // The short one is not 0: it is written.
    let payload =
        SetupPayload { long_discriminator: Some(5), short_discriminator: 4, ..base.clone() };
    assert_eq!(payload.to_manual_code_str().unwrap(), "11237442363");
    let payload = SetupPayload { short_discriminator: 15, ..base.clone() };
    assert_eq!(payload.to_manual_code_str().unwrap()[..2], *"36");
    // Above 15 it does not fit.
    let payload = SetupPayload { short_discriminator: 16, ..base.clone() };
    assert_eq!(
        payload.to_manual_code_str().unwrap_err(),
        MatterPayloadError::Payload(PayloadError::DiscriminatorOutOfRange(16))
    );
    let payload = SetupPayload { short_discriminator: 255, long_discriminator: Some(3), ..base };
    assert_eq!(
        payload.to_manual_code_str().unwrap_err(),
        MatterPayloadError::Payload(PayloadError::DiscriminatorOutOfRange(255))
    );
}

#[test]
fn test_manual_code_exact_digits() {
    let payload = SetupPayload {
        long_discriminator: Some(3840),
        short_discriminator: 15,
        pincode: 20202021,
        discovery: Some(2),
        flow: CommissioningFlow::Standard,
        vid: Some(0xFFF1),
        pid: Some(0x8001),
    };
    assert_eq!(payload.to_manual_code_str().unwrap(), "34970112332");
    let payload = SetupPayload { pincode: (1 << 27) - 1, ..payload };
    assert_eq!(payload.to_manual_code_str().unwrap(), "36553581917");
    // Of a PIN code that is too large the low 27 bits are written.
    let payload = SetupPayload { pincode: u32::MAX, ..payload };
    assert_eq!(payload.to_manual_code_str().unwrap(), "36553581917");
    let payload = SetupPayload { pincode: 0, short_discriminator: 0, long_discriminator: None, ..payload };
    assert_eq!(payload.to_manual_code_str().unwrap(), "00000000005");
}

#[test]
fn test_manual_code_of_other_flows_has_eleven_digits() {
    // The flag is set, but vendor and product id are not written: such a
    // code calls for digits that it has not.
    for flow in [CommissioningFlow::UserIntent, CommissioningFlow::Custom] {
        let payload = SetupPayload { flow, ..standard_payload() };
        let code = payload.to_manual_code_str().unwrap();
        assert_eq!(code, "51237442364");
        assert_eq!(
            SetupPayload::parse_str(&code).unwrap_err(),
            MatterPayloadError::Payload(PayloadError::InvalidManualCodeDigit(code))
        );
    }
    let payload = SetupPayload {
        flow: CommissioningFlow::Custom,
        vid: None,
        pid: None,
        ..standard_payload()
    };
    assert_eq!(payload.to_manual_code_str().unwrap(), "51237442364");
    let payload = SetupPayload {
        flow: CommissioningFlow::Custom,
        pid: None,
        ..standard_payload()
    };
    assert_eq!(payload.to_manual_code_str().unwrap(), "51237442364");
}

#[test]
fn test_manual_codes_of_the_standard_flow_parse_again() {
    for short_discriminator in 0..16u8 {
        for pincode in [0u32, 1, 0x3FFF, 0x4000, 20202021, 69414998, (1 << 27) - 1] {
            let payload = SetupPayload {
                long_discriminator: None,
                short_discriminator,
                pincode,
                discovery: None,
                flow: CommissioningFlow::Standard,
                vid: None,
                pid: None,
            };
            let code = payload.to_manual_code_str().unwrap();
            assert_eq!(code.len(), 11);
            assert_eq!(SetupPayload::parse_str(&code).unwrap(), payload);
        }
    }
}

#[test]
fn test_parse_never_panics_on_odd_text() {
    for text in [
        "", "M", "MT", "MT:", "MT:.", "MT:-----", "MT:\u{0}", "\u{0}", "00000000000",
        "99999999999", "999999999999999999999", "ＭＴ:00", "1123744236３", "-1237442363",
        "+1237442363", " 1237442363", "MT:Y.K904QI143LH13SH1", "MT:Y.K904QI143LH13SH100",
    ] {
        let _ = SetupPayload::parse_str(text);
    }
}
