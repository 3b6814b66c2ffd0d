use matter_setup_code::error::{LayoutError, MatterPayloadError, PayloadError};
use matter_setup_code::payload::layout::{field, put_field, put_zeros};
use matter_setup_code::payload::manual::ManualCodeData;
use matter_setup_code::payload::qr::{parse_qr_symbols, reversed, QrCodeData};
use matter_setup_code::CommissioningFlow;

fn standard_record() -> QrCodeData {
    QrCodeData {
        padding: 0,
        pincode: 69414998,
        discriminator: 1132,
        discovery: 4,
        flow: CommissioningFlow::Standard,
        pid: 0x8000,
        vid: 0xFFF1,
        version: 0,
    }
}

#[test]
fn test_flow_tags() {
    assert_eq!(CommissioningFlow::Standard.tag(), 0);
    assert_eq!(CommissioningFlow::UserIntent.tag(), 1);
    assert_eq!(CommissioningFlow::Custom.tag(), 2);
    assert_eq!(CommissioningFlow::from_tag(0), Some(CommissioningFlow::Standard));
    assert_eq!(CommissioningFlow::from_tag(1), Some(CommissioningFlow::UserIntent));
    assert_eq!(CommissioningFlow::from_tag(2), Some(CommissioningFlow::Custom));
    assert_eq!(CommissioningFlow::from_tag(3), None);
    assert_eq!(CommissioningFlow::from_tag(255), None);
}

#[test]
fn test_put_field_and_field() {
    let mut bits = vec![1u8];
    put_field(&mut bits, 0b101, 3).unwrap();
    put_field(&mut bits, 0, 2).unwrap();
    put_field(&mut bits, 1, 1).unwrap();
    assert_eq!(bits, vec![1, 1, 0, 1, 0, 0, 1]);
    assert_eq!(
        put_field(&mut bits, 8, 3).unwrap_err(),
        MatterPayloadError::Layout(LayoutError::FieldOverflow { value: 8, bits: 3 })
    );
    assert_eq!(bits, vec![1, 1, 0, 1, 0, 0, 1]);
    put_zeros(&mut bits, 3);
    put_zeros(&mut bits, 0);
    assert_eq!(bits, vec![1, 1, 0, 1, 0, 0, 1, 0, 0, 0]);
    assert_eq!(field(&bits, 0, 1), 1);
    assert_eq!(field(&bits, 1, 3), 0b101);
    assert_eq!(field(&bits, 0, 10), 0b1101001000);
    assert_eq!(field(&bits, 10, 0), 0);
    assert_eq!(field(&bits, 4, 3), 1);
}

#[test]
fn test_reversed() {
    assert_eq!(reversed(&[]), Vec::<u8>::new());
    assert_eq!(reversed(&[7]), vec![7]);
    assert_eq!(reversed(&[1, 2, 3, 4]), vec![4, 3, 2, 1]);
}

#[test]
fn test_qr_record_bytes() {
    let bytes = standard_record().to_bytes().unwrap();
    assert_eq!(bytes, vec![8, 70, 96, 172, 141, 128, 132, 0, 7, 255, 136]);
    assert_eq!(QrCodeData::from_bytes(&bytes).unwrap(), standard_record());
    let record = QrCodeData {
        padding: 9,
        flow: CommissioningFlow::UserIntent,
        version: 5,
        ..standard_record()
    };
    let bytes = record.to_bytes().unwrap();
    assert_eq!(bytes, vec![152, 70, 96, 172, 141, 128, 140, 0, 7, 255, 141]);
    assert_eq!(QrCodeData::from_bytes(&bytes).unwrap(), record);
}

#[test]
fn test_qr_record_overflow() {
    let overflow = |value: u64, bits: usize| {
        MatterPayloadError::Layout(LayoutError::FieldOverflow { value, bits })
    };
    assert_eq!(
        QrCodeData { padding: 16, ..standard_record() }.to_bytes().unwrap_err(),
        overflow(16, 4)
    );
    assert_eq!(
        QrCodeData { pincode: 1 << 27, ..standard_record() }.to_bytes().unwrap_err(),
        overflow(1 << 27, 27)
    );
    assert_eq!(
        QrCodeData { discriminator: 1 << 12, ..standard_record() }.to_bytes().unwrap_err(),
        overflow(1 << 12, 12)
    );
    assert_eq!(
        QrCodeData { version: 8, ..standard_record() }.to_bytes().unwrap_err(),
        overflow(8, 3)
    );
    // The first field that does not fit is named.
    assert_eq!(
        QrCodeData { version: 8, discriminator: 0xFFFF, ..standard_record() }
            .to_bytes()
            .unwrap_err(),
        overflow(0xFFFF, 12)
    );
}

#[test]
fn test_qr_record_from_bytes_errors() {
    let incomplete = MatterPayloadError::Layout(LayoutError::Incomplete);
    assert_eq!(QrCodeData::from_bytes(&[]).unwrap_err(), incomplete);
    assert_eq!(QrCodeData::from_bytes(&[0xFF; 6]).unwrap_err(), incomplete);
    assert_eq!(QrCodeData::from_bytes(&[0; 7]).unwrap_err(), incomplete);
    assert_eq!(QrCodeData::from_bytes(&[0; 10]).unwrap_err(), incomplete);
    assert_eq!(
        QrCodeData::from_bytes(&[0xFF; 7]).unwrap_err(),
        MatterPayloadError::Layout(LayoutError::UnknownFlow(3))
    );
    assert_eq!(
        QrCodeData::from_bytes(&[0, 0, 0, 10, 0, 192, 248, 0, 64, 0, 72]).unwrap_err(),
        MatterPayloadError::Layout(LayoutError::UnknownFlow(3))
    );
    assert_eq!(
        QrCodeData::from_bytes(&[0; 11]).unwrap(),
        QrCodeData {
            padding: 0,
            pincode: 0,
            discriminator: 0,
            discovery: 0,
            flow: CommissioningFlow::Standard,
            pid: 0,
            vid: 0,
            version: 0,
        }
    );
    // Bytes after the record are not looked at.
    let mut bytes = standard_record().to_bytes().unwrap();
    bytes.extend([0xAB, 0xCD]);
    assert_eq!(QrCodeData::from_bytes(&bytes).unwrap(), standard_record());
}

#[test]
fn test_qr_record_parse_from_str() {
    assert_eq!(
        QrCodeData::parse_from_str("MT:Y.K904QI143LH13SH10").unwrap(),
        standard_record()
    );
    let symbols: Vec<char> = "MT:Y.K904QI143LH13SH10".chars().collect();
    assert_eq!(parse_qr_symbols(&symbols).unwrap(), standard_record());
    for text in ["", "M", "MT", "mt:Y.K904QI143LH13SH10", "11237442363", " MT:", "MT;00"] {
        assert_eq!(
            QrCodeData::parse_from_str(text).unwrap_err(),
            MatterPayloadError::Payload(PayloadError::InvalidQrCodePrefix)
        );
    }
    assert_eq!(
        QrCodeData::parse_from_str("MT:").unwrap_err(),
        MatterPayloadError::Layout(LayoutError::Incomplete)
    );
}

#[test]
fn test_manual_record_bytes() {
    let record = ManualCodeData {
        version: 0,
        vid_pid_present: 0,
        discriminator: 4,
        pincode_lsb: 12374,
        pincode_msb: 4236,
        vid: Some(0),
        pid: Some(0),
        padding: 0,
    };
    assert_eq!(record.to_bytes().unwrap(), vec![19, 5, 104, 70, 0, 0, 0, 0, 0]);
    let record = ManualCodeData { vid: None, pid: None, ..record };
    assert_eq!(record.to_bytes().unwrap(), vec![19, 5, 104, 70, 0]);
    assert_eq!(ManualCodeData::from_bytes(&[19, 5, 104, 70, 0]).unwrap(), record);
    // Without the flag the bytes after the fifth are not looked at.
    assert_eq!(ManualCodeData::from_bytes(&[19, 5, 104, 70, 0, 1, 2, 3, 4]).unwrap(), record);

    let record = ManualCodeData {
        version: 0,
        vid_pid_present: 1,
        discriminator: 15,
        pincode_lsb: 549,
        pincode_msb: 1233,
        vid: Some(65521),
        pid: Some(32769),
        padding: 0,
    };
    let bytes = record.to_bytes().unwrap();
    assert_eq!(bytes, vec![124, 34, 82, 104, 255, 248, 192, 0, 128]);
    assert_eq!(ManualCodeData::from_bytes(&bytes).unwrap(), record);
    let record = ManualCodeData { pid: None, ..record };
    assert_eq!(record.to_bytes().unwrap(), vec![124, 34, 82, 104, 255, 248, 128]);

    let record = ManualCodeData {
        version: 1,
        vid_pid_present: 1,
        discriminator: 15,
        pincode_lsb: 0x3FFF,
        pincode_msb: 0x1FFF,
        vid: Some(0xFFFF),
        pid: Some(0xFFFF),
        padding: 0x7F,
    };
    assert_eq!(record.to_bytes().unwrap(), vec![255; 9]);
    assert_eq!(ManualCodeData::from_bytes(&[255; 9]).unwrap(), record);
}

#[test]
fn test_manual_record_errors() {
    let record = ManualCodeData {
        version: 0,
        vid_pid_present: 0,
        discriminator: 4,
        pincode_lsb: 12374,
        pincode_msb: 4236,
        vid: None,
        pid: None,
        padding: 0,
    };
    let overflow = |value: u64, bits: usize| {
        MatterPayloadError::Layout(LayoutError::FieldOverflow { value, bits })
    };
    assert_eq!(ManualCodeData { version: 2, ..record }.to_bytes().unwrap_err(), overflow(2, 1));
    let record = ManualCodeData { version: 0, vid: None, pid: None, ..record };
    assert_eq!(
        ManualCodeData { vid_pid_present: 2, vid: None, pid: None, ..record }
            .to_bytes()
            .unwrap_err(),
        overflow(2, 1)
    );
    let record = ManualCodeData {
        version: 0,
        vid_pid_present: 0,
        discriminator: 16,
        pincode_lsb: 0x4000,
        pincode_msb: 0x2000,
        vid: None,
        pid: None,
        padding: 0x80,
    };
    assert_eq!(record.to_bytes().unwrap_err(), overflow(16, 4));
    let record = ManualCodeData { discriminator: 15, ..record };
    assert_eq!(record.to_bytes().unwrap_err(), overflow(0x4000, 14));
    let record = ManualCodeData { pincode_lsb: 0, ..record };
    assert_eq!(record.to_bytes().unwrap_err(), overflow(0x2000, 13));
    let record = ManualCodeData { pincode_msb: 0, ..record };
    assert_eq!(record.to_bytes().unwrap_err(), overflow(0x80, 7));

    let incomplete = MatterPayloadError::Layout(LayoutError::Incomplete);
    assert_eq!(ManualCodeData::from_bytes(&[]).unwrap_err(), incomplete);
    assert_eq!(ManualCodeData::from_bytes(&[0; 4]).unwrap_err(), incomplete);
    // With the flag the record has nine bytes.
    assert_eq!(ManualCodeData::from_bytes(&[0x40, 0, 0, 0, 0, 0, 0, 0]).unwrap_err(), incomplete);
    assert!(ManualCodeData::from_bytes(&[0x40, 0, 0, 0, 0, 0, 0, 0, 0]).is_ok());
    assert!(ManualCodeData::from_bytes(&[0; 5]).is_ok());
}

#[test]
fn test_manual_record_parse_from_str() {
    assert_eq!(
        ManualCodeData::parse_from_str("11237442363").unwrap(),
        ManualCodeData {
            version: 0,
            vid_pid_present: 0,
            discriminator: 4,
            pincode_lsb: 12374,
            pincode_msb: 4236,
            vid: None,
            pid: None,
            padding: 0,
        }
    );
    assert_eq!(
        ManualCodeData::parse_from_str("749701123365521327694").unwrap(),
        ManualCodeData {
            version: 0,
            vid_pid_present: 1,
            discriminator: 15,
            pincode_lsb: 549,
            pincode_msb: 1233,
            vid: Some(65521),
            pid: Some(32769),
            padding: 0,
        }
    );
    assert_eq!(
        ManualCodeData::parse_from_str("MT:Y.K904QI143LH13SH10").unwrap_err(),
        MatterPayloadError::Payload(PayloadError::InvalidManualCodeLength(22))
    );
}
