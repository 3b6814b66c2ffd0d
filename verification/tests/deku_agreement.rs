//! The two layouts, held against the bit readers and writers of `deku`.

use deku::ctx::{BitSize, Endian};
use deku::reader::Reader;
use deku::writer::Writer;
use deku::{DekuError, DekuReader, DekuWriter};
use matter_setup_code::error::{LayoutError, MatterPayloadError};
use matter_setup_code::payload::manual::ManualCodeData;
use matter_setup_code::payload::qr::QrCodeData;
use matter_setup_code::CommissioningFlow;
use std::io::Cursor;

fn put<T: DekuWriter<(Endian, BitSize)>>(
    writer: &mut Writer<&mut Cursor<&mut Vec<u8>>>,
    value: T,
    bits: usize,
) -> Result<(), DekuError> {
    value.to_writer(writer, (Endian::Big, BitSize(bits)))
}

fn qr_bytes_by_deku(record: &QrCodeData) -> Result<Vec<u8>, DekuError> {
    let mut out = Vec::new();
    let mut cursor = Cursor::new(&mut out);
    let mut writer = Writer::new(&mut cursor);
    put(&mut writer, record.padding, 4)?;
    put(&mut writer, record.pincode, 27)?;
    put(&mut writer, record.discriminator, 12)?;
    put(&mut writer, record.discovery, 8)?;
    put(&mut writer, record.flow.tag(), 2)?;
    put(&mut writer, record.pid, 16)?;
    put(&mut writer, record.vid, 16)?;
    put(&mut writer, record.version, 3)?;
    writer.finalize()?;
    Ok(out)
}

fn manual_bytes_by_deku(record: &ManualCodeData) -> Result<Vec<u8>, DekuError> {
    let mut out = Vec::new();
    let mut cursor = Cursor::new(&mut out);
    let mut writer = Writer::new(&mut cursor);
    put(&mut writer, record.version, 1)?;
    put(&mut writer, record.vid_pid_present, 1)?;
    put(&mut writer, record.discriminator, 4)?;
    put(&mut writer, record.pincode_lsb, 14)?;
    put(&mut writer, record.pincode_msb, 13)?;
    if let Some(vid) = record.vid {
        put(&mut writer, vid, 16)?;
    }
    if let Some(pid) = record.pid {
        put(&mut writer, pid, 16)?;
    }
    put(&mut writer, record.padding, 7)?;
    writer.finalize()?;
    Ok(out)
}

fn take<'a, T: DekuReader<'a, (Endian, BitSize)>>(
    reader: &mut Reader<Cursor<&[u8]>>,
    bits: usize,
) -> Result<T, DekuError> {
    T::from_reader_with_ctx(reader, (Endian::Big, BitSize(bits)))
}

fn qr_record_by_deku(bytes: &[u8]) -> Result<Option<QrCodeData>, DekuError> {
    let mut reader = Reader::new(Cursor::new(bytes));
    let padding: u8 = take(&mut reader, 4)?;
    let pincode: u32 = take(&mut reader, 27)?;
    let discriminator: u16 = take(&mut reader, 12)?;
    let discovery: u8 = take(&mut reader, 8)?;
    let tag: u8 = take(&mut reader, 2)?;
    let flow = match CommissioningFlow::from_tag(tag) {
        Some(flow) => flow,
        None => return Ok(None),
    };
    let pid: u16 = take(&mut reader, 16)?;
    let vid: u16 = take(&mut reader, 16)?;
    let version: u8 = take(&mut reader, 3)?;
    Ok(Some(QrCodeData { padding, pincode, discriminator, discovery, flow, pid, vid, version }))
}

fn manual_record_by_deku(bytes: &[u8]) -> Result<ManualCodeData, DekuError> {
    let mut reader = Reader::new(Cursor::new(bytes));
    let version: u8 = take(&mut reader, 1)?;
    let vid_pid_present: u8 = take(&mut reader, 1)?;
    let discriminator: u8 = take(&mut reader, 4)?;
    let pincode_lsb: u16 = take(&mut reader, 14)?;
    let pincode_msb: u16 = take(&mut reader, 13)?;
    let (vid, pid) = if vid_pid_present == 1 {
        (Some(take(&mut reader, 16)?), Some(take(&mut reader, 16)?))
    } else {
        (None, None)
    };
    let padding: u8 = take(&mut reader, 7)?;
    Ok(ManualCodeData {
        version,
        vid_pid_present,
        discriminator,
        pincode_lsb,
        pincode_msb,
        vid,
        pid,
        padding,
    })
}

/// A few hundred byte strings that differ in every place.
fn patterns(len: usize) -> Vec<Vec<u8>> {
    let mut all = vec![vec![0; len], vec![0xFF; len], vec![0xA5; len], vec![0x5A; len]];
    let mut state: u32 = 0x2545_F491;
    for _ in 0..200 {
        let mut bytes = Vec::with_capacity(len);
        for _ in 0..len {
            state = state.wrapping_mul(1_664_525).wrapping_add(1_013_904_223);
            bytes.push((state >> 24) as u8);
        }
        all.push(bytes);
    }
    all
}

#[test]
fn test_qr_record_is_read_as_deku_reads_it() {
    for len in [0, 1, 6, 7, 10, 11, 12, 20] {
        for bytes in patterns(len) {
            match (QrCodeData::from_bytes(&bytes), qr_record_by_deku(&bytes)) {
                (Ok(ours), Ok(Some(theirs))) => assert_eq!(ours, theirs),
                (Err(MatterPayloadError::Layout(LayoutError::UnknownFlow(3))), Ok(None)) => {}
                (Err(MatterPayloadError::Layout(LayoutError::Incomplete)), Err(e)) => {
                    assert!(matches!(e, DekuError::Incomplete(_)), "{e:?}");
                }
                (ours, theirs) => {
                    panic!("{bytes:?}: {ours:?} here, {:?} there", theirs.map(|r| r.is_some()))
                }
            }
        }
    }
}

#[test]
fn test_qr_record_is_written_as_deku_writes_it() {
    for bytes in patterns(11) {
        let record = match QrCodeData::from_bytes(&bytes) {
            Ok(record) => record,
            Err(_) => continue,
        };
        assert_eq!(record.to_bytes().unwrap(), bytes);
        assert_eq!(qr_bytes_by_deku(&record).unwrap(), bytes);
        // Values that their fields cannot carry are refused by both.
        for wide in [
            QrCodeData { padding: record.padding | 0x10, ..QrCodeData::from_bytes(&bytes).unwrap() },
            QrCodeData { pincode: record.pincode | 1 << 27, ..QrCodeData::from_bytes(&bytes).unwrap() },
            QrCodeData {
                discriminator: record.discriminator | 1 << 12,
                ..QrCodeData::from_bytes(&bytes).unwrap()
            },
            QrCodeData { version: record.version | 8, ..QrCodeData::from_bytes(&bytes).unwrap() },
        ] {
            assert!(matches!(
                wide.to_bytes(),
                Err(MatterPayloadError::Layout(LayoutError::FieldOverflow { .. }))
            ));
            assert!(matches!(qr_bytes_by_deku(&wide), Err(DekuError::InvalidParam(_))));
        }
    }
}

#[test]
fn test_manual_record_is_read_as_deku_reads_it() {
    for len in [0, 1, 4, 5, 6, 8, 9, 10] {
        for bytes in patterns(len) {
            match (ManualCodeData::from_bytes(&bytes), manual_record_by_deku(&bytes)) {
                (Ok(ours), Ok(theirs)) => assert_eq!(ours, theirs),
                (Err(MatterPayloadError::Layout(LayoutError::Incomplete)), Err(e)) => {
                    assert!(matches!(e, DekuError::Incomplete(_)), "{e:?}");
                }
                (ours, theirs) => panic!("{bytes:?}: {ours:?} here, {theirs:?} there"),
            }
        }
    }
}

#[test]
fn test_manual_record_is_written_as_deku_writes_it() {
    for bytes in patterns(9) {
        let record = ManualCodeData::from_bytes(&bytes).unwrap();
        let written = record.to_bytes().unwrap();
        assert_eq!(written, manual_bytes_by_deku(&record).unwrap());
        assert_eq!(written, bytes[..written.len()]);
        // A record with the one or the other id only.
        let record = ManualCodeData { vid: Some(bytes[0] as u16 * 257), pid: None, ..record };
        assert_eq!(record.to_bytes().unwrap(), manual_bytes_by_deku(&record).unwrap());
        let record = ManualCodeData { vid: None, pid: Some(bytes[1] as u16 * 257), ..record };
        assert_eq!(record.to_bytes().unwrap(), manual_bytes_by_deku(&record).unwrap());
        let record = ManualCodeData { discriminator: 16 + bytes[2] % 16, ..record };
        assert!(matches!(
            record.to_bytes(),
            Err(MatterPayloadError::Layout(LayoutError::FieldOverflow { .. }))
        ));
        assert!(matches!(manual_bytes_by_deku(&record), Err(DekuError::InvalidParam(_))));
    }
}
