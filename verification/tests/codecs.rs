use byten::fix::Array;
use byten::prelude::EncodeToVec;
use byten::prelude::EncoderToVec;
use byten::prim;
use byten::util::Asymmetric;
use byten::util::Convert;
use byten::util::ConvertDecoded;
use byten::util::ConvertEncoded;
use byten::util::Owned;
use byten::var::strings::CString;
use byten::var::strings::Str;
use byten::var::strings::Text;
use byten::var::strings::ZString;
use byten::var::List;
use byten::var::Opt;
use byten::var::Remaining;
use byten::var::Slice;
use byten::var::USizeBE;
use byten::BorrowedDecoder;
use byten::Decode;
use byten::DecodeError;
use byten::DecodeOwned;
use byten::EncodeError;
use byten::Encoder;
use byten::FixedMeasurer;
use byten::Measurer;
use byten::SelfCodec;

type U8AsUSize = Convert<SelfCodec<u8>, usize>;

#[test]
fn fixed_width_codecs_are_bit_exact() {
    assert_eq!(prim::U32BE.encode_to_vec(&0x01020304u32).unwrap(), vec![1, 2, 3, 4]);
    assert_eq!(prim::U32LE.encode_to_vec(&0x01020304u32).unwrap(), vec![4, 3, 2, 1]);
    assert_eq!(prim::U16BE.encode_to_vec(&0xABCDu16).unwrap(), vec![0xAB, 0xCD]);
    assert_eq!(prim::U16LE.encode_to_vec(&0xABCDu16).unwrap(), vec![0xCD, 0xAB]);
    assert_eq!(prim::I16BE.encode_to_vec(&-2i16).unwrap(), vec![0xFF, 0xFE]);
    assert_eq!(prim::I16LE.encode_to_vec(&-2i16).unwrap(), vec![0xFE, 0xFF]);
    assert_eq!(
        prim::U64BE.encode_to_vec(&1u64).unwrap(),
        vec![0, 0, 0, 0, 0, 0, 0, 1]
    );
    assert_eq!(prim::I64BE.borrowed_decode(&[0xFF; 8], &mut 0).unwrap(), -1i64);
    assert_eq!(
        prim::U128LE.encode_to_vec(&1u128).unwrap(),
        vec![1, 0, 0, 0, 0, 0, 0, 0, 0, 0, 0, 0, 0, 0, 0, 0]
    );
    assert_eq!(prim::I128BE.borrowed_decode(&[0xFF; 16], &mut 0).unwrap(), -1i128);
}

#[test]
fn fixed_width_round_trips() {
    let v: u32 = 0xDEADBEEF;
    let encoded = prim::U32BE.encode_to_vec(&v).unwrap();
    assert_eq!(prim::U32BE.measure(&v).unwrap(), encoded.len());
    assert_eq!(prim::U32BE.measure_fixed(), encoded.len());
    assert_eq!(prim::U32BE.borrowed_decode(&encoded, &mut 0).unwrap(), v);

    let s: i64 = i64::MIN;
    let encoded = prim::I64LE.encode_to_vec(&s).unwrap();
    assert_eq!(prim::I64LE.borrowed_decode(&encoded, &mut 0).unwrap(), s);

    let w: i128 = -123456789;
    let encoded = prim::I128LE.encode_to_vec(&w).unwrap();
    assert_eq!(prim::I128LE.borrowed_decode(&encoded, &mut 0).unwrap(), w);
}

#[test]
fn fixed_width_truncated_is_eof() {
    assert_eq!(
        prim::U32BE.borrowed_decode(&[1, 2, 3], &mut 0),
        Err(DecodeError::EOF)
    );
    assert_eq!(
        prim::U16LE.borrowed_decode(&[], &mut 0),
        Err(DecodeError::EOF)
    );
}

#[test]
fn bool_accepts_only_zero_and_one() {
    assert_eq!(bool::decode(&[0], &mut 0), Ok(false));
    assert_eq!(bool::decode(&[1], &mut 0), Ok(true));
    assert_eq!(bool::decode(&[2], &mut 0), Err(DecodeError::InvalidData));
    assert_eq!(bool::decode(&[], &mut 0), Err(DecodeError::EOF));
    assert_eq!(true.encode_to_vec().unwrap(), vec![1]);
    assert_eq!(false.encode_to_vec().unwrap(), vec![0]);
}

#[test]
fn byte_array_round_trips() {
    let arr: [u8; 4] = [9, 8, 7, 6];
    let encoded = arr.encode_to_vec().unwrap();
    assert_eq!(encoded, vec![9, 8, 7, 6]);
    assert_eq!(<[u8; 4]>::decode(&encoded, &mut 0).unwrap(), arr);
    assert_eq!(<[u8; 4]>::decode(&[1, 2], &mut 0), Err(DecodeError::EOF));
}

#[test]
fn list_round_trips() {
    let codec = List::codec(USizeBE, prim::U16BE);
    let values: Vec<u16> = vec![1, 513, 65535];
    let encoded = codec.encode_to_vec(&values).unwrap();
    assert_eq!(encoded, vec![3, 0, 1, 2, 1, 0xFF, 0xFF]);
    assert_eq!(codec.measure(&values).unwrap(), encoded.len());
    let mut offset = 0;
    assert_eq!(codec.borrowed_decode(&encoded, &mut offset).unwrap(), values);
    assert_eq!(offset, encoded.len());
    // truncating inside an item reports the end of the buffer
    assert_eq!(codec.borrowed_decode(&encoded[..4], &mut 0), Err(DecodeError::EOF));
}

#[test]
fn option_flag_senses() {
    let codec = Opt::codec(prim::U16BE);
    let nothing: Option<u16> = None;
    let something: Option<u16> = Some(513);
    assert_eq!(codec.encode_to_vec(&nothing).unwrap(), vec![1]);
    assert_eq!(codec.encode_to_vec(&something).unwrap(), vec![0, 2, 1]);
    assert_eq!(codec.borrowed_decode(&[1], &mut 0).unwrap(), None);
    assert_eq!(codec.borrowed_decode(&[0, 2, 1], &mut 0).unwrap(), Some(513));
    assert_eq!(codec.borrowed_decode(&[7], &mut 0), Err(DecodeError::InvalidData));
    assert_eq!(codec.borrowed_decode(&[0, 2], &mut 0), Err(DecodeError::EOF));
}

#[test]
fn slice_round_trips_and_borrows() {
    let codec = Slice::codec(USizeBE);
    let payload: Vec<u8> = vec![10, 20, 30];
    let encoded = codec.encode_to_vec(&payload).unwrap();
    assert_eq!(encoded, vec![3, 10, 20, 30]);
    let mut offset = 0;
    let view: &[u8] = codec.borrowed_decode(&encoded, &mut offset).unwrap();
    assert_eq!(view, &payload[..]);
    assert_eq!(codec.borrowed_decode(&encoded[..3], &mut 0), Err(DecodeError::EOF));

    let owned_codec: Owned<Slice<USizeBE>, Vec<u8>> = Owned::codec(Slice::codec(USizeBE));
    let copied: Vec<u8> = owned_codec.borrowed_decode(&encoded, &mut 0).unwrap();
    assert_eq!(copied, payload);
    assert_eq!(owned_codec.encode_to_vec(&copied).unwrap(), encoded);
}

#[test]
fn str_codecs_check_utf8() {
    let codec: Text<U8AsUSize> = Text::codec(Convert::codec(SelfCodec::codec()));
    let text = "héllo".to_string();
    let encoded = codec.encode_to_vec(&text).unwrap();
    assert_eq!(encoded[0] as usize, encoded.len() - 1);
    assert_eq!(codec.measure(&text).unwrap(), encoded.len());
    assert_eq!(codec.borrowed_decode(&encoded, &mut 0).unwrap(), text);

    let borrowed: Str<U8AsUSize> = Str::codec(Convert::codec(SelfCodec::codec()));
    let mut offset = 0;
    let view: &str = borrowed.borrowed_decode(&encoded, &mut offset).unwrap();
    assert_eq!(view, "héllo");

    assert_eq!(codec.borrowed_decode(&[2, 0xFF, 0xFE], &mut 0), Err(DecodeError::InvalidData));
    assert_eq!(codec.borrowed_decode(&[5, 0x61], &mut 0), Err(DecodeError::EOF));
}

#[test]
fn text_length_prefix_limits_encoding() {
    let codec: Text<U8AsUSize> = Text::codec(Convert::codec(SelfCodec::codec()));
    let long = "y".repeat(300);
    assert_eq!(codec.measure(&long), Err(EncodeError::CodecFailure));
    assert_eq!(codec.encode_to_vec(&long), Err(EncodeError::CodecFailure));
}

#[test]
fn nul_terminated_strings() {
    let z = ZString::new(b"hello".to_vec()).expect("nul-free bytes");
    let encoded = CString.encode_to_vec(&z).unwrap();
    assert_eq!(encoded, vec![b'h', b'e', b'l', b'l', b'o', 0]);
    assert_eq!(CString.measure(&z).unwrap(), encoded.len());
    let mut offset = 0;
    let decoded = CString.borrowed_decode(&encoded, &mut offset).unwrap();
    assert_eq!(decoded, z);
    assert_eq!(offset, encoded.len());

    assert!(ZString::new(vec![1, 0, 2]).is_none());
    assert_eq!(CString.borrowed_decode(b"no terminator", &mut 0), Err(DecodeError::InvalidData));

    let borrowed = byten::var::strings::CStr;
    let mut offset = 0;
    let view: &[u8] = borrowed.borrowed_decode(&encoded, &mut offset).unwrap();
    assert_eq!(view, b"hello");
}

#[test]
fn remaining_takes_the_rest() {
    let buffer = [1u8, 2, 3, 4];
    let mut offset = 1;
    let rest = Remaining.borrowed_decode(&buffer, &mut offset).unwrap();
    assert_eq!(rest, &[2, 3, 4]);
    assert_eq!(offset, 4);
    let payload: Vec<u8> = vec![9, 9];
    assert_eq!(Remaining.encode_to_vec(&payload).unwrap(), vec![9, 9]);
}

#[test]
fn fixed_array_combinator() {
    let codec: Array<prim::U16BE, 3> = Array::codec(prim::U16BE);
    let values: Vec<u16> = vec![1, 2, 3];
    let encoded = codec.encode_to_vec(&values).unwrap();
    assert_eq!(encoded, vec![0, 1, 0, 2, 0, 3]);
    assert_eq!(codec.measure_fixed(), 6);
    assert_eq!(codec.borrowed_decode(&encoded, &mut 0).unwrap(), values);
    assert_eq!(codec.borrowed_decode(&encoded[..5], &mut 0), Err(DecodeError::EOF));
    // the combinator holds exactly three items; any other count is refused
    let short: Vec<u16> = vec![1, 2];
    assert_eq!(codec.measure(&short), Err(EncodeError::CodecFailure));
}

#[test]
fn convert_codec_narrows_lengths() {
    let codec: U8AsUSize = Convert::codec(SelfCodec::codec());
    let n: usize = 200;
    assert_eq!(codec.encode_to_vec(&n).unwrap(), vec![200]);
    assert_eq!(codec.borrowed_decode(&[200], &mut 0).unwrap(), 200usize);
    let too_big: usize = 300;
    assert_eq!(codec.encode_to_vec(&too_big), Err(EncodeError::CodecFailure));
}

#[test]
fn encode_fails_when_buffer_is_small() {
    let mut buffer = vec![0u8; 2];
    let mut offset = 0usize;
    assert_eq!(
        prim::U32BE.encode(&7u32, &mut buffer, &mut offset),
        Err(EncodeError::BufferTooSmall)
    );
}

#[test]
fn nested_composition_round_trips() {
    // a list of optional length-prefixed byte runs, all built from combinators
    let codec = List::codec(USizeBE, Opt::codec(Slice::codec(USizeBE)));
    let values: Vec<Option<Vec<u8>>> = vec![Some(vec![1, 2]), None, Some(vec![])];
    let encoded = codec.encode_to_vec(&values).unwrap();
    assert_eq!(encoded, vec![3, 0, 2, 1, 2, 1, 0, 0]);
    assert_eq!(codec.measure(&values).unwrap(), encoded.len());
    let mut offset = 0;
    let decoded: Vec<Option<&[u8]>> = codec.borrowed_decode(&encoded, &mut offset).unwrap();
    assert_eq!(decoded.len(), 3);
    assert_eq!(decoded[0], Some(&[1u8, 2u8][..]));
    assert_eq!(decoded[1], None);
    assert_eq!(decoded[2], Some(&[][..]));
}

#[test]
fn asymmetric_adapter_pairs_one_way_codecs() {
    let codec: Asymmetric<ConvertEncoded<SelfCodec<u8>, usize>, ConvertDecoded<usize, SelfCodec<u8>>> =
        Asymmetric::codec(ConvertEncoded::codec(SelfCodec::codec()), ConvertDecoded::codec(SelfCodec::codec()));
    let n: usize = 42;
    assert_eq!(codec.measure(&n).unwrap(), 1);
    assert_eq!(codec.encode_to_vec(&n).unwrap(), vec![42]);
    let back: usize = codec.borrowed_decode(&[42], &mut 0).unwrap();
    assert_eq!(back, n);
}

#[test]
fn decode_owned_matches_decode() {
    assert_eq!(u8::decode_owned(&[7], &mut 0), Ok(7u8));
    let date = byten::record::Date { day: 3, month: 4, year: 2020 };
    let encoded = date.encode_to_vec().unwrap();
    assert_eq!(byten::record::Date::decode_owned(&encoded, &mut 0).unwrap(), date);
}

#[test]
fn empty_values_round_trip() {
    let list = List::codec(USizeBE, prim::U16BE);
    let none: Vec<u16> = vec![];
    let encoded = list.encode_to_vec(&none).unwrap();
    assert_eq!(encoded, vec![0]);
    assert_eq!(list.borrowed_decode(&encoded, &mut 0).unwrap(), none);

    let text: Text<U8AsUSize> = Text::codec(Convert::codec(SelfCodec::codec()));
    let empty = String::new();
    let encoded = text.encode_to_vec(&empty).unwrap();
    assert_eq!(encoded, vec![0]);
    assert_eq!(text.borrowed_decode(&encoded, &mut 0).unwrap(), empty);

    let z = ZString::new(Vec::new()).unwrap();
    let encoded = CString.encode_to_vec(&z).unwrap();
    assert_eq!(encoded, vec![0]);
    assert_eq!(CString.borrowed_decode(&encoded, &mut 0).unwrap(), z);
}

#[test]
fn zstring_encodes_itself() {
    let z = ZString::new(b"abc".to_vec()).unwrap();
    let encoded = z.encode_to_vec().unwrap();
    assert_eq!(encoded, vec![b'a', b'b', b'c', 0]);
    assert_eq!(ZString::decode(&encoded, &mut 0).unwrap(), z);
}

#[test]
fn default_codecs_match_their_constructors() {
    let le: prim::U16LE = Default::default();
    assert_eq!(le.encode_to_vec(&0x1234u16).unwrap(), vec![0x34, 0x12]);
    let varint: byten::var::U64BE = Default::default();
    assert_eq!(varint.encode_to_vec(&300u64).unwrap(), vec![0x82, 0x2C]);
    let list: List<USizeBE, SelfCodec<u8>> = Default::default();
    assert_eq!(list.encode_to_vec(&vec![7u8, 9u8]).unwrap(), vec![2, 7, 9]);
    let opt: Opt<SelfCodec<u8>> = Default::default();
    assert_eq!(opt.encode_to_vec(&Some(5u8)).unwrap(), vec![0, 5]);
    let text: Text<USizeBE> = Default::default();
    assert_eq!(text.encode_to_vec(&String::from("hi")).unwrap(), vec![2, b'h', b'i']);
    let cstring: CString = Default::default();
    let z = ZString::new(vec![1, 2]).unwrap();
    assert_eq!(cstring.encode_to_vec(&z).unwrap(), vec![1, 2, 0]);
    let convert: U8AsUSize = Default::default();
    assert_eq!(convert.encode_to_vec(&200usize).unwrap(), vec![200]);
}

#[test]
fn option_encode_small_buffer_is_buffer_too_small() {
    let codec = Opt::codec(Slice::codec(USizeBE));
    let value: Option<Vec<u8>> = Some(vec![1, 2, 3]);
    let mut buffer = vec![0u8; 2];
    let mut offset = 0usize;
    assert_eq!(
        codec.encode(&value, &mut buffer, &mut offset),
        Err(EncodeError::BufferTooSmall)
    );
}

#[test]
fn convert_measure_failure_is_codec_failure() {
    let codec: U8AsUSize = Convert::codec(SelfCodec::codec());
    let too_big: usize = 300;
    assert_eq!(codec.measure(&too_big), Err(EncodeError::CodecFailure));
}

#[test]
fn failed_nul_terminated_encode_changes_nothing() {
    // the bytes alone would fit, the terminator would not
    let z = ZString::new(vec![9, 8, 7]).unwrap();
    let mut buffer = vec![0u8; 3];
    let mut offset = 0usize;
    assert_eq!(
        CString.encode(&z, &mut buffer, &mut offset),
        Err(EncodeError::BufferTooSmall)
    );
    assert_eq!(buffer, vec![0u8; 3]);
    assert_eq!(offset, 0);
}

#[test]
fn failed_nul_terminated_decode_keeps_the_cursor() {
    let buffer = [0x41u8, 0x42];
    let mut offset = 0usize;
    assert_eq!(
        CString.borrowed_decode(&buffer, &mut offset),
        Err(DecodeError::InvalidData)
    );
    assert_eq!(offset, 0);
}

#[test]
fn failed_remaining_encode_changes_nothing() {
    let data = vec![1u8, 2, 3, 4];
    let mut buffer = vec![0u8; 2];
    let mut offset = 1usize;
    assert_eq!(
        Remaining.encode(&data, &mut buffer, &mut offset),
        Err(EncodeError::BufferTooSmall)
    );
    assert_eq!(buffer, vec![0u8; 2]);
    assert_eq!(offset, 1);
}

#[test]
fn failed_narrowing_leaves_cursor_after_the_encoding() {
    // 70000 takes a three-byte varint and does not fit a u16
    let wide = byten::var::U64BE.encode_to_vec(&70000u64).unwrap();
    assert_eq!(wide.len(), 3);
    let mut offset = 0usize;
    assert_eq!(
        byten::var::U16BE.borrowed_decode(&wide, &mut offset),
        Err(DecodeError::ConversionFailure)
    );
    assert_eq!(offset, 3);
}

#[test]
fn failed_byte_array_decode_keeps_the_cursor() {
    let buffer = [1u8, 2];
    let mut offset = 1usize;
    assert_eq!(
        <[u8; 4]>::decode(&buffer, &mut offset),
        Err(DecodeError::EOF)
    );
    assert_eq!(offset, 1);
}
