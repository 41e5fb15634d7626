use byten::prelude::EncodeToVec;
use byten::record::Color;
use byten::record::Date;
use byten::record::Person;
use byten::Decode;
use byten::DecodeError;
use byten::Measure;

fn sample_person() -> Person {
    Person {
        id: 123456,
        name: "Alice".to_string(),
        birthday: Date {
            day: 23,
            month: 10,
            year: 1965,
        },
        favorite_colors: vec![
            Color::Red,
            Color::Grayscale(128),
            Color::RGBa {
                red: 255,
                green: 0,
                blue: 0,
                alpha: 65535,
            },
            Color::Gradient(Box::new(Color::Green), Box::new(Color::Blue)),
            Color::ColorCode(0b110010101010),
            Color::Unknown(),
        ],
    }
}

fn sample_encoding() -> Vec<u8> {
    vec![
        0x00, 0x01, 0xe2, 0x40, // id: U32BE(123456)

        0x05,                   // name length: one byte (5)
        0x41, 0x6c, 0x69, 0x63, 0x65, // name: "Alice"

        23,                     // birthday.day: u8(23)
        10,                     // birthday.month: u8(10)
        0x07, 0xAD,             // birthday.year: U16BE(1965)

        0b00000110,             // favorite_colors length: varint(6)

        0x01, 0x00,             // Color::Red discriminant: U16LE(1)

        0x04, 0x00,             // Color::Grayscale discriminant: U16LE(4)
        0x00, 0x80,             // Grayscale value: U16BE(128)

        0x05, 0x00,             // Color::RGBa discriminant: U16LE(5)
        0xff, 0x00, 0x00,       // RGB values
        0xff, 0xff,             // alpha: U16BE(65535)

        0x06, 0x00,             // Color::Gradient discriminant: U16LE(6)

        0x02, 0x00,             // Color::Green discriminant: U16LE(2)

        0x03, 0x00,             // Color::Blue discriminant: U16LE(3)

        0x07, 0x00,             // Color::ColorCode discriminant: U16LE(7);

        // Color::ColorCode value: U64BE(0b110010101010)
        0x00, 0x00, 0x00, 0x00, 0x00, 0x00, // padding for U64BE
        0b1100, 0b10101010, // full bytes

        0xff, 0x00,          // Color::Unknown discriminant: U16LE(255)
    ]
}

#[test]
fn test_person_codec() {
    let person = sample_person();
    let expected_encoded = sample_encoding();

    let size = person.measure().expect("Measuring failed");
    assert_eq!(size, expected_encoded.len());

    let encoded = person.encode_to_vec().expect("Encoding failed");
    assert_eq!(encoded, expected_encoded);
    let decoded = Person::decode(&encoded, &mut 0).expect("Decoding failed");
    assert_eq!(person, decoded);
}

#[test]
fn person_reencode_is_identical() {
    let encoded = sample_encoding();
    let decoded = Person::decode(&encoded, &mut 0).expect("Decoding failed");
    assert_eq!(decoded.encode_to_vec().expect("Encoding failed"), encoded);
}

#[test]
fn truncated_person_is_eof() {
    let encoded = sample_encoding();
    for cut in [0, 3, 4, 5, 9, 12, 14, 16, 19, 43, encoded.len() - 1] {
        let short = &encoded[..cut];
        assert_eq!(
            Person::decode(short, &mut 0),
            Err(DecodeError::EOF),
            "cut at {} was not EOF",
            cut
        );
    }
}

#[test]
fn unknown_discriminant_is_rejected() {
    let mut encoded = sample_encoding();
    // turn the first color's discriminant into a value no variant claims
    encoded[15] = 0x09;
    assert_eq!(Person::decode(&encoded, &mut 0), Err(DecodeError::InvalidDiscriminant));

    let lone = [0x09u8, 0x00];
    assert_eq!(Color::decode(&lone, &mut 0), Err(DecodeError::InvalidDiscriminant));
}

#[test]
fn invalid_name_utf8_is_rejected() {
    let mut encoded = sample_encoding();
    // clobber one byte of the name with an invalid UTF-8 byte
    encoded[5] = 0xFF;
    assert_eq!(Person::decode(&encoded, &mut 0), Err(DecodeError::InvalidData));
}

#[test]
fn oversized_name_cannot_be_measured() {
    let mut person = sample_person();
    person.name = "x".repeat(300);
    assert!(person.measure().is_err());
    assert!(person.encode_to_vec().is_err());
}

#[test]
fn nested_gradient_round_trips() {
    let color = Color::Gradient(
        Box::new(Color::Gradient(Box::new(Color::Red), Box::new(Color::ColorCode(7)))),
        Box::new(Color::Unknown()),
    );
    let encoded = color.encode_to_vec().expect("Encoding failed");
    assert_eq!(color.measure().unwrap(), encoded.len());
    let decoded = Color::decode(&encoded, &mut 0).expect("Decoding failed");
    assert_eq!(color, decoded);
}

#[test]
fn date_is_fixed_width() {
    assert_eq!(<Date as byten::MeasureFixed>::measure_fixed(), 4);
    let date = Date { day: 1, month: 2, year: 2024 };
    let encoded = date.encode_to_vec().unwrap();
    assert_eq!(encoded, vec![1, 2, 0x07, 0xE8]);
    assert_eq!(Date::decode(&encoded, &mut 0).unwrap(), date);
}

#[test]
fn empty_person_fields_round_trip() {
    let person = Person {
        id: 0,
        name: String::new(),
        birthday: Date { day: 0, month: 0, year: 0 },
        favorite_colors: vec![],
    };
    let encoded = person.encode_to_vec().unwrap();
    assert_eq!(encoded, vec![0, 0, 0, 0, 0, 0, 0, 0, 0, 0]);
    assert_eq!(Person::decode(&encoded, &mut 0).unwrap(), person);
}

#[test]
fn color_clone_is_equal() {
    let c = Color::Gradient(
        Box::new(Color::RGBa { red: 1, green: 2, blue: 3, alpha: 4 }),
        Box::new(Color::Grayscale(9)),
    );
    let d = c.clone();
    assert_eq!(c, d);
}
