use matter_setup_code::base38::{decode, decode_symbols, encode};
use matter_setup_code::error::{Base38DecodeError, MatterPayloadError};

#[test]
fn test_round_trip() {
    let original_data = b"Hello, Matter!".to_vec();
    let encoded = encode(&original_data);
    let decoded = decode(&encoded).expect("Decoding failed");
    assert_eq!(original_data, decoded);
}

#[test]
fn test_chunk_boundaries() {
    let inputs: Vec<Vec<u8>> = vec![
        vec![1],
        vec![1, 2],
        vec![1, 2, 3],
        vec![1, 2, 3, 4],
        vec![1, 2, 3, 4, 5],
        vec![1, 2, 3, 4, 5, 6],
        vec![],
    ];
    for input in inputs {
        let encoded = encode(&input);
        let decoded = decode(&encoded).unwrap();
        assert_eq!(input, decoded, "Round trip failed for input: {:?}", input);
    }
}

#[test]
fn test_decode_invalid_character() {
    let result = decode("ABC@123");
    let expected_error = MatterPayloadError::Base38(Base38DecodeError::InvalidCharacter('@'));
    assert_eq!(result.unwrap_err(), expected_error);
}

#[test]
fn test_decode_invalid_length() {
    let result = decode("ABC");
    let expected_error = MatterPayloadError::Base38(Base38DecodeError::InvalidChunkLength(3));
    assert_eq!(result.unwrap_err(), expected_error);
}

#[test]
fn test_decode_value_out_of_range() {
    // 'ZZZZZ' spells a number above 2^24 - 1.
    let invalid_input = "ZZZZZ";
    let result = decode(invalid_input);
    assert!(matches!(
        result,
        Err(MatterPayloadError::Base38(
            Base38DecodeError::ValueOutOfRange { .. }
        ))
    ));
}

#[test]
fn test_edge_cases() {
    let edge_cases = vec![vec![0x00; 100], vec![0xFF; 100], (0..=255).collect()];
    for case in edge_cases {
        let encoded = encode(&case);
        let decoded = decode(&encoded).expect("Decoding failed");
        assert_eq!(case, decoded, "Edge case failed");
    }
}

#[test]
fn test_encode_exact_text() {
    assert_eq!(encode(&[0x12, 0x34, 0x56, 0x78]), "4D-Q263");
    assert_eq!(encode(b"Hello, Matter!"), "KKHF3GQ2F1W0823CK673CZ50");
    assert_eq!(encode(&[]), "");
    assert_eq!(encode(&[0x00]), "00");
    assert_eq!(encode(&[0xFF]), "R6");
    assert_eq!(encode(&[0xFF, 0xFF]), "NE71");
    assert_eq!(encode(&[0xFF, 0xFF, 0xFF]), "PLS18");
}

#[test]
fn test_decode_exact_bytes() {
    assert_eq!(decode("4D-Q263").unwrap(), vec![0x12, 0x34, 0x56, 0x78]);
    assert_eq!(decode("").unwrap(), Vec::<u8>::new());
    assert_eq!(decode("R6").unwrap(), vec![0xFF]);
    assert_eq!(decode("NE71").unwrap(), vec![0xFF, 0xFF]);
    assert_eq!(decode("PLS18").unwrap(), vec![0xFF, 0xFF, 0xFF]);
    assert_eq!(decode("PLS18R6").unwrap(), vec![0xFF, 0xFF, 0xFF, 0xFF]);
}

#[test]
fn test_decode_value_out_of_range_fields() {
    // Five symbols that spell 43965664, which three bytes cannot hold.
    assert_eq!(
        decode("6593L1G").unwrap_err(),
        MatterPayloadError::Base38(Base38DecodeError::ValueOutOfRange {
            value: 43965664,
            digits: 5,
            expected_bytes: 3,
        })
    );
    // The first number that one byte cannot hold: 256 = 28 + 6 * 38.
    assert_eq!(
        decode("S6").unwrap_err(),
        MatterPayloadError::Base38(Base38DecodeError::ValueOutOfRange {
            value: 256,
            digits: 2,
            expected_bytes: 1,
        })
    );
    assert_eq!(
        decode("ZZZZZ").unwrap_err(),
        MatterPayloadError::Base38(Base38DecodeError::ValueOutOfRange {
            value: 35 + 35 * 38 + 35 * 1444 + 35 * 54872 + 35 * 2085136,
            digits: 5,
            expected_bytes: 3,
        })
    );
}

#[test]
fn test_decode_error_order() {
    // In a chunk the last bad character is named.
    assert_eq!(
        decode("a0b00").unwrap_err(),
        MatterPayloadError::Base38(Base38DecodeError::InvalidCharacter('b'))
    );
    // A bad character counts before a bad length.
    assert_eq!(
        decode("0_0").unwrap_err(),
        MatterPayloadError::Base38(Base38DecodeError::InvalidCharacter('_'))
    );
    // The first chunk that fails decides.
    assert_eq!(
        decode("ZZZZZ@").unwrap_err(),
        MatterPayloadError::Base38(Base38DecodeError::ValueOutOfRange {
            value: 35 + 35 * 38 + 35 * 1444 + 35 * 54872 + 35 * 2085136,
            digits: 5,
            expected_bytes: 3,
        })
    );
    assert_eq!(
        decode("000000").unwrap_err(),
        MatterPayloadError::Base38(Base38DecodeError::InvalidChunkLength(1))
    );
    // Lower-case letters are no symbols.
    assert_eq!(
        decode("0z").unwrap_err(),
        MatterPayloadError::Base38(Base38DecodeError::InvalidCharacter('z'))
    );
    // A character of several bytes counts as one character.
    assert_eq!(
        decode("0é").unwrap_err(),
        MatterPayloadError::Base38(Base38DecodeError::InvalidCharacter('é'))
    );
}

#[test]
fn test_decode_symbols_agrees_with_decode() {
    let symbols: Vec<char> = "KKHF3GQ2F1W0823CK673CZ50".chars().collect();
    assert_eq!(decode_symbols(&symbols).unwrap(), b"Hello, Matter!".to_vec());
    assert_eq!(decode_symbols(&[]).unwrap(), Vec::<u8>::new());
}

#[test]
fn test_round_trip_of_every_short_input() {
    for a in 0..=255u8 {
        assert_eq!(decode(&encode(&[a])).unwrap(), vec![a]);
        for b in [0u8, 1, 37, 38, 127, 128, 255] {
            assert_eq!(decode(&encode(&[a, b])).unwrap(), vec![a, b]);
            assert_eq!(decode(&encode(&[b, a, b])).unwrap(), vec![b, a, b]);
        }
    }
}
