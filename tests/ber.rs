use mu_rust::ber::{
    read_identifier, read_integer_as_u16, read_length, read_octet_string, read_optional_identifier,
    read_required_identifier, read_visiblestring, DecodeError, Encoding, Identifier, Tag,
};
use mu_rust::bytes::BytesReader;


#[test]
fn read_identifier_valid() {
    let bytes = [
        0b00_0_01010,
        0b01_0_10101,
        0b10_0_11100,
        0b11_0_00111,
        0b00_1_01010,
        0b01_1_10101,
        0b10_1_11100,
        0b11_1_00111,
        0b00_0_11111, 0x8A, 0x55,
        0b01_1_11111, 0x80, 0x80, 0x55,
        0b10_0_11111, 0x81, 0xCD, 0xAF, 0x9B, 0x6F,
    ];

    let mut reader = BytesReader::new(&bytes);

    let result = read_identifier(&mut reader);
    assert_eq!(result, Ok(Identifier { tag: Tag::Universal(10), encoding: Encoding::Primitive }));
    let result = read_identifier(&mut reader);
    assert_eq!(result, Ok(Identifier { tag: Tag::Application(21), encoding: Encoding::Primitive }));
    let result = read_identifier(&mut reader);
    assert_eq!(result, Ok(Identifier { tag: Tag::ContextSpecific(28), encoding: Encoding::Primitive }));
    let result = read_identifier(&mut reader);
    assert_eq!(result, Ok(Identifier { tag: Tag::Private(7), encoding: Encoding::Primitive }));

    let result = read_identifier(&mut reader);
    assert_eq!(result, Ok(Identifier { tag: Tag::Universal(10), encoding: Encoding::Constructed }));
    let result = read_identifier(&mut reader);
    assert_eq!(result, Ok(Identifier { tag: Tag::Application(21), encoding: Encoding::Constructed }));
    let result = read_identifier(&mut reader);
    assert_eq!(result, Ok(Identifier { tag: Tag::ContextSpecific(28), encoding: Encoding::Constructed }));
    let result = read_identifier(&mut reader);
    assert_eq!(result, Ok(Identifier { tag: Tag::Private(7), encoding: Encoding::Constructed }));

    let result = read_identifier(&mut reader);
    assert_eq!(result, Ok(Identifier { tag: Tag::Universal(0x555), encoding: Encoding::Primitive }));
    let result = read_identifier(&mut reader);
    assert_eq!(result, Ok(Identifier { tag: Tag::Application(0x55), encoding: Encoding::Constructed }));
    let result = read_identifier(&mut reader);
    assert_eq!(result, Ok(Identifier { tag: Tag::ContextSpecific(0x19ABCDEF), encoding: Encoding::Primitive }));

    assert!(reader.is_empty());
}

#[test]
fn read_identifier_out_of_range() {
    let mut reader = BytesReader::new(&[0b10_0_11111, 0x91, 0xCD, 0xAF, 0x9B, 0x6F]);
    assert_eq!(read_identifier(&mut reader), Err(DecodeError::TagOutOfRange));
}

#[test]
fn read_required_identifier_expected() {
    let bytes = [
        0b10_0_01010,
        0b10_1_11111, 0x8A, 0x55,
    ];

    let mut reader = BytesReader::new(&bytes);
    let result = read_required_identifier(&mut reader, Tag::ContextSpecific(10));
    assert_eq!(result, Ok(Encoding::Primitive));

    let result = read_required_identifier(&mut reader, Tag::ContextSpecific(0x555));
    assert_eq!(result, Ok(Encoding::Constructed));
    assert!(reader.is_empty());
}

#[test]
fn read_required_identifier_unexpected() {
    let mut reader = BytesReader::new(&[0b10_0_01010]);
    let result = read_required_identifier(&mut reader, Tag::ContextSpecific(9));
    assert_eq!(result, Err(DecodeError::UnexpectedTag));

    let mut reader = BytesReader::new(&[0b10_1_11111, 0x8A, 0x55]);
    let result = read_required_identifier(&mut reader, Tag::ContextSpecific(0xAAA));
    assert_eq!(result, Err(DecodeError::UnexpectedTag));
}

#[test]
fn read_optional_identifier_present() {
    let bytes = [
        0b10_0_01010,
        0b10_1_11111, 0x8A, 0x55,
    ];

    let mut reader = BytesReader::new(&bytes);
    let result = read_optional_identifier(&mut reader, Tag::ContextSpecific(10));
    assert_eq!(result, Ok(Some(Encoding::Primitive)));

    let result = read_optional_identifier(&mut reader, Tag::ContextSpecific(0x555));
    assert_eq!(result, Ok(Some(Encoding::Constructed)));
    assert!(reader.is_empty());
}

#[test]
fn read_optional_identifier_absent() {
    let mut reader = BytesReader::new(&[0b10_0_01010]);
    let result = read_optional_identifier(&mut reader, Tag::ContextSpecific(9));
    assert_eq!(result, Ok(None));

    let result = read_optional_identifier(&mut reader, Tag::ContextSpecific(10));
    assert_eq!(result, Ok(Some(Encoding::Primitive)));
    assert!(reader.is_empty());

    let result = read_optional_identifier(&mut reader, Tag::ContextSpecific(11));
    assert_eq!(result, Ok(None));
}

#[test]
fn read_length_valid() {
    let bytes = [
        0x12,
        0x82, 0x12, 0x34,
        0x84, 0x12, 0x34, 0x56, 0x78,
        0x89, 0x00, 0x12, 0x34, 0x56, 0x78, 0x9A, 0xBC, 0xDE, 0xF0,
    ];

    let mut reader = BytesReader::new(&bytes);

    let result = read_length(&mut reader);
    assert_eq!(result, Ok(0x12));

    let result = read_length(&mut reader);
    assert_eq!(result, Ok(0x1234));

    let result = read_length(&mut reader);
    assert_eq!(result, Ok(0x12345678));

    let result = read_length(&mut reader);
    assert_eq!(result, Ok(0x123456789ABCDEF0));

    assert!(reader.is_empty());
}

#[test]
fn read_length_indefinite() {
    let mut reader = BytesReader::new(&[0x80]);
    let result = read_length(&mut reader);
    assert_eq!(result, Err(DecodeError::IndefiniteLength));
}

#[test]
fn read_length_reserved() {
    let mut reader = BytesReader::new(&[0xFF]);
    let result = read_length(&mut reader);
    assert_eq!(result, Err(DecodeError::ReservedLength));
}

#[test]
fn read_length_out_of_range() {
    let mut reader = BytesReader::new(&[0x89, 0x12, 0x34, 0x56, 0x78, 0x9A, 0xBC, 0xDE, 0xF0, 0x12]);
    let result = read_length(&mut reader);
    assert_eq!(result, Err(DecodeError::LengthOutOfRange));
}

#[test]
fn read_length_invalid_length() {
    let mut reader = BytesReader::new(&[0x85, 0x12, 0x34, 0x56, 0x78]);
    read_length(&mut reader)
        .expect_err("should fail when reader runs out of bytes");
}

#[test]
fn read_integer_as_u16_valid() {
    let bytes = [
        0x01, 0x12,
        0x02, 0x34, 0x56,
        0x03, 0x00, 0x89, 0xAB,
    ];
    let mut reader = BytesReader::new(&bytes);

    let result = read_integer_as_u16(&mut reader, Encoding::Primitive);
    assert_eq!(result, Ok(0x12));

    let result = read_integer_as_u16(&mut reader, Encoding::Primitive);
    assert_eq!(result, Ok(0x3456));

    let result = read_integer_as_u16(&mut reader, Encoding::Primitive);
    assert_eq!(result, Ok(0x89AB));

    assert!(reader.is_empty());
}

#[test]
fn read_integer_as_u16_constructed() {
    let mut reader = BytesReader::new(&[0x01, 0x12]);
    read_integer_as_u16(&mut reader, Encoding::Constructed)
        .expect_err("should fail with constructed length");
}

#[test]
fn read_integer_as_u16_zero_length() {
    let mut reader = BytesReader::new(&[0x00]);
    read_integer_as_u16(&mut reader, Encoding::Primitive)
        .expect_err("should fail with length of zero");
}

#[test]
fn read_integer_as_u16_overlong() {
    let mut reader = BytesReader::new(&[0x02, 0x00, 0x12]);
    read_integer_as_u16(&mut reader, Encoding::Primitive)
        .expect_err("should fail with overlong encoding");

    let mut reader = BytesReader::new(&[0x02, 0xFF, 0x89]);
    read_integer_as_u16(&mut reader, Encoding::Primitive)
        .expect_err("should fail with overlong encoding");
}

#[test]
fn read_integer_as_u16_out_of_range() {
    let mut reader = BytesReader::new(&[0x02, 0x89, 0xAB]);
    read_integer_as_u16(&mut reader, Encoding::Primitive)
        .expect_err("should fail with negative value");

    let mut reader = BytesReader::new(&[0x03, 0x12, 0x34, 0x56]);
    read_integer_as_u16(&mut reader, Encoding::Primitive)
        .expect_err("should fail with value which is out of range");
}

#[test]
fn read_octet_string_valid() {
    let mut reader = BytesReader::new(b"\x06abc\x00\x01\x02");
    let result = read_octet_string(&mut reader, Encoding::Primitive)
        .unwrap();
    assert_eq!(result, b"abc\x00\x01\x02");
    assert!(reader.is_empty());
}

#[test]
fn read_octet_string_invalid_length() {
    let mut reader = BytesReader::new(b"\x07abc\x00\x01\x02");
    read_octet_string(&mut reader, Encoding::Primitive)
        .expect_err("should fail with invalid length");
}

#[test]
fn read_octet_string_constructed() {
    let mut reader = BytesReader::new(b"\x06abc\x00\x01\x02");
    read_octet_string(&mut reader, Encoding::Constructed)
        .expect_err("should fail with constructed tag");
}

#[test]
fn read_visiblestring_valid() {
    let mut reader = BytesReader::new(b"\x04test");
    let result = read_visiblestring(&mut reader, Encoding::Primitive)
        .unwrap();
    assert_eq!(result, "test");
    assert!(reader.is_empty());

    let mut reader = BytesReader::new(b"\x03test");
    let result = read_visiblestring(&mut reader, Encoding::Primitive)
        .unwrap();
    assert_eq!(result, "tes");
    assert!(reader.skip(1).is_ok()); // There should be exactly one byte remaining.
    assert!(reader.is_empty());
}

#[test]
fn read_visiblestring_invalid_length() {
    let mut reader = BytesReader::new(b"\x05test");
    read_visiblestring(&mut reader, Encoding::Primitive)
        .expect_err("should fail with invalid length");
}

#[test]
fn read_visiblestring_constructed() {
    let mut reader = BytesReader::new(b"\x04test");
    read_visiblestring(&mut reader, Encoding::Constructed)
        .expect_err("should fail with constructed tag");
}

#[test]
fn read_visiblestring_invalid_chars() {
    // ASCII control characters
    let mut bytes = b"\x08control\ncharacter".to_owned();
    bytes[0] = bytes.len() as u8;
    for c in (0x00..0x20).chain(std::iter::once(0xFF)) {
        bytes[8] = c;
        let mut reader = BytesReader::new(&bytes);
        read_visiblestring(&mut reader, Encoding::Primitive)
            .expect_err("should fail with ASCII control characters");
    }

    // Non-ASCII characters
    let mut reader = BytesReader::new(b"\x05caf\xC3\xA9"); // 'café' in UTF-8
    read_visiblestring(&mut reader, Encoding::Primitive)
        .expect_err("should fail with non-ASCII characters");
}
