use serde_jce::names::tag_of_name;
use serde_jce::{Error, Serializer, StructSerializer};

fn hex(s: &str) -> Vec<u8> {
    let digits: Vec<u8> = s.bytes().filter(|c| !c.is_ascii_whitespace()).collect();
    digits
        .chunks(2)
        .map(|p| u8::from_str_radix(std::str::from_utf8(p).unwrap(), 16).unwrap())
        .collect()
}

#[test]
fn with_tag() {
    let val = 0x12_u8;
    let mut ser = Serializer::new();
    ser.tag = 0xab;
    ser.serialize_u64(val as u64).unwrap();
    assert_eq!(ser.done(), hex("f0 ab 12"));
}

#[test]
fn u64_error() {
    let val = u64::MAX;
    let mut ser = Serializer::new();
    assert!(ser.serialize_u64(val).is_err());
    assert_eq!(ser.serialize_u64(val), Err(Error::IntTooBig));
    assert_eq!(ser.done(), Vec::<u8>::new());
}

#[test]
fn struct_tag_duplicate() {
    let mut fields = StructSerializer::new();
    assert_eq!(fields.field_tag(0), Ok(()));
    assert!(fields.field_tag(0).is_err());
    assert_eq!(fields.field_tag(0), Err(Error::DuplicateFieldTag));
    assert_eq!(fields.field_tag(1), Ok(()));
}

#[test]
fn ser_jce_struct() {
    let mut ser = Serializer::new();
    let mut fields = StructSerializer::new();
    ser.builder.struct_begin(ser.tag);
    fields.field_tag(0).unwrap();
    ser.builder.i8(0, 0x01);
    fields.field_tag(1).unwrap();
    ser.builder.i16(1, 0x0123);
    fields.field_tag(2).unwrap();
    ser.builder.i32(2, 0x01234567);
    fields.field_tag(3).unwrap();
    ser.builder.i64(3, 0x0123456789abcdef);
    fields.field_tag(4).unwrap();
    ser.builder.f32_bits(4, f32::from_be_bytes([0x12, 0x34, 0x56, 0x78]).to_bits());
    fields.field_tag(5).unwrap();
    let d = f64::from_be_bytes([0x88, 0x77, 0x66, 0x55, 0x44, 0x33, 0x22, 0x11]);
    ser.builder.f64_bits(5, d.to_bits());
    fields.field_tag(6).unwrap();
    ser.tag = 6;
    ser.serialize_str("\x12\x34\x56\x78").unwrap();
    fields.field_tag(7).unwrap();
    ser.tag = 7;
    ser.serialize_str(&"\x7f".repeat(300)).unwrap();
    fields.field_tag(8).unwrap();
    ser.tag = 8;
    ser.serialize_map(Some(2)).unwrap();
    ser.builder.i8(0, 1).i8(1, 2).i8(0, 3).i8(1, 4);
    fields.field_tag(9).unwrap();
    ser.tag = 9;
    ser.serialize_seq(Some(4)).unwrap();
    ser.builder.i8(0, 1).i8(0, 2).i8(0, 3).i8(0, 4);
    fields.field_tag(10).unwrap();
    let mut sub = StructSerializer::new();
    ser.builder.struct_begin(10);
    sub.field_tag(0).unwrap();
    ser.builder.i8(0, 0x12);
    sub.field_tag(1).unwrap();
    ser.builder.i16(1, 0x1234);
    ser.builder.struct_end();
    fields.field_tag(12).unwrap();
    ser.builder.zero(12);
    fields.field_tag(13).unwrap();
    ser.tag = 13;
    ser.serialize_bytes(&[0x11, 0x22, 0x33, 0x44]).unwrap();
    fields.field_tag(200).unwrap();
    ser.tag = 200;
    ser.serialize_u64(1).unwrap();
    ser.builder.struct_end();

    let mut expected = hex(
        "0a 00 01 11 0123 22 01234567 33 0123456789abcdef 44 12345678 55 8877665544332211 66 04 12345678 77 0000012c",
    );
    expected.extend([0x7f_u8; 300]);
    expected.extend(hex(
        "88 0002 0001 1002 0003 1004 99 0004 0001 0002 0003 0004 aa 0012 111234 0b cc dd00 0004 11223344 f0c8 01 0b",
    ));
    assert_eq!(ser.done(), expected);
}

#[test]
fn ser_length_checks() {
    let mut ser = Serializer::new();
    assert_eq!(ser.serialize_seq(None), Err(Error::NeedLength));
    assert_eq!(ser.serialize_map(None), Err(Error::NeedLength));
    assert_eq!(ser.serialize_seq(Some(1usize << 31)), Err(Error::SeqTooLong));
    assert_eq!(ser.serialize_map(Some(1usize << 31)), Err(Error::MapTooLong));
    assert_eq!(ser.serialize_seq(Some(0)), Ok(()));
    assert_eq!(ser.serialize_map(Some(0)), Ok(()));
    assert_eq!(ser.done(), hex("09 0c 08 0c"));
}

#[test]
fn ser_zero_elision() {
    let mut ser = Serializer::new();
    ser.serialize_u64(0).unwrap();
    ser.builder.zero(0);
    assert_eq!(ser.done(), hex("0c 0c"));
}

#[test]
fn ser_struct_tag_error() {
    assert!(tag_of_name("v0").is_err());
    assert_eq!(tag_of_name("v1"), Err(Error::ErrorFieldTag));
    assert_eq!(tag_of_name("200"), Ok(200));
    assert_eq!(tag_of_name(" 1"), Err(Error::ErrorFieldTag));
}
