use byten::prelude::EncoderToVec;
use byten::var::U64BE;
use byten::BorrowedDecoder;
use byten::DecodeError;
use byten::Measurer;

#[test]
fn test_septets_le() {
    let fixtures = [
        (0u64,      [0b0000000, 0b0000000, 0b0000000, 0b0000000, 0b0000000, 0b0000000, 0b0000000, 0b0000000, 0b0000000, 0b0000000]),
        (1u64,      [0b0000000, 0b0000000, 0b0000000, 0b0000000, 0b0000000, 0b0000000, 0b0000000, 0b0000000, 0b0000000, 0b0000001]),
        (127u64,    [0b0000000, 0b0000000, 0b0000000, 0b0000000, 0b0000000, 0b0000000, 0b0000000, 0b0000000, 0b0000000, 0b1111111]),
        (128u64,    [0b0000000, 0b0000000, 0b0000000, 0b0000000, 0b0000000, 0b0000000, 0b0000000, 0b0000000, 0b0000001, 0b0000000]),
        (255u64,    [0b0000000, 0b0000000, 0b0000000, 0b0000000, 0b0000000, 0b0000000, 0b0000000, 0b0000000, 0b0000001, 0b1111111]),
        (16383u64,  [0b0000000, 0b0000000, 0b0000000, 0b0000000, 0b0000000, 0b0000000, 0b0000000, 0b0000000, 0b1111111, 0b1111111]),
        (16384u64,  [0b0000000, 0b0000000, 0b0000000, 0b0000000, 0b0000000, 0b0000000, 0b0000000, 0b0000001, 0b0000000, 0b0000000]),
        (u64::MAX,  [0b0000001, 0b1111111, 0b1111111, 0b1111111, 0b1111111, 0b1111111, 0b1111111, 0b1111111, 0b1111111, 0b1111111]),
    ];
    for (num, septets_be_fixture) in fixtures.iter() {
        let septets_be = U64BE::into_septets_be(*num);
        assert_eq!(&septets_be, septets_be_fixture, "BE septets failed for {}", num);

        let reconstructed_num = U64BE::from_septets_be(*septets_be_fixture);
        assert_eq!(&reconstructed_num, num, "BE reconstruction failed for {:?}", septets_be_fixture);
    }
}

#[test]
fn test_u64be() {
    let fixtures = [
        (0u64,      vec![0b00000000]),
        (1u64,      vec![0b00000001]),
        (127u64,    vec![0b01111111]),
        (128u64,    vec![0b10000001, 0b00000000]),
        (255u64,    vec![0b10000001, 0b01111111]),
        (16383u64,  vec![0b11111111, 0b01111111]),
        (16384u64,  vec![0b10000001, 0b10000000, 0b00000000]),
        (u64::MAX,  vec![0b10000001, 0b11111111, 0b11111111, 0b11111111, 0b11111111, 0b11111111, 0b11111111, 0b11111111, 0b11111111, 0b01111111]),
    ];

    for (num, encoded_fixture) in fixtures.iter() {
        let encoded = U64BE.encode_to_vec(num).expect("Encoding failed");
        assert_eq!(&encoded, encoded_fixture, "Encoding failed for {}", num);

        let decoded = U64BE.borrowed_decode(&encoded, &mut 0).expect("Decoding failed");
        assert_eq!(&decoded, num, "Decoding failed for {:?}", encoded);
    }
}

#[test]
fn varint_measure_matches_encoding() {
    for num in [0u64, 1, 127, 128, 16383, 16384, u64::MAX, 300, 1 << 62] {
        let encoded = U64BE.encode_to_vec(&num).expect("Encoding failed");
        assert_eq!(U64BE.measure(&num).expect("Measuring failed"), encoded.len());
    }
}

#[test]
fn varint_truncated_decode_is_eof() {
    let encoded = U64BE.encode_to_vec(&16384u64).unwrap();
    for cut in 0..encoded.len() {
        let short = &encoded[..cut];
        assert_eq!(U64BE.borrowed_decode(short, &mut 0), Err(DecodeError::EOF));
    }
}

#[test]
fn varint_eleven_septets_is_invalid_data() {
    let encoded = [0x80u8; 12];
    let mut offset = 0usize;
    assert_eq!(U64BE.borrowed_decode(&encoded, &mut offset), Err(DecodeError::InvalidData));
    // ten septets plus the eleventh byte, which is read and discarded
    assert_eq!(offset, 11);
}

#[test]
fn varint_accepts_padded_forms() {
    // a leading zero septet with a continuation flag is read but adds nothing,
    // so re-encoding such input shortens it: the format is not canonical
    let padded = [0x80u8, 0x01];
    let mut offset = 0usize;
    let decoded = U64BE.borrowed_decode(&padded, &mut offset).unwrap();
    assert_eq!(decoded, 1);
    assert_eq!(offset, 2);
    assert_eq!(U64BE.encode_to_vec(&decoded).unwrap(), vec![0x01]);
}

#[test]
fn varint_narrowing_reports_conversion_failure() {
    let wide = U64BE.encode_to_vec(&70000u64).unwrap();
    assert_eq!(byten::var::U16BE.borrowed_decode(&wide, &mut 0), Err(DecodeError::ConversionFailure));
    let fits = U64BE.encode_to_vec(&65535u64).unwrap();
    assert_eq!(byten::var::U16BE.borrowed_decode(&fits, &mut 0), Ok(65535u16));
}
