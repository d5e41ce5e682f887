use serde_jce::{Error, JceParser, JceType};

fn hex(s: &str) -> Vec<u8> {
    let digits: Vec<u8> = s.bytes().filter(|c| !c.is_ascii_whitespace()).collect();
    digits
        .chunks(2)
        .map(|p| u8::from_str_radix(std::str::from_utf8(p).unwrap(), 16).unwrap())
        .collect()
}

const MAP_BYTES: &str = "08 0002 06 05 6669727374 16 0b 66697273745f76616c7565 06 06 7365636f6e64 16 0c 7365636f6e645f76616c7565";
const LIST_BYTES: &str = "09 0002 06 05 6669727374 06 06 7365636f6e64";

#[test]
fn pick_head() {
    {
        let bytes = hex("0c");
        let parser = JceParser::from_bytes(&bytes);
        assert_eq!(parser.pick_type().unwrap(), JceType::Zero);
        assert_eq!(parser.pick_head().unwrap(), (0, JceType::Zero));
        assert!(!parser.done());
    }
    {
        let bytes = hex("fc ab");
        let parser = JceParser::from_bytes(&bytes);
        assert_eq!(parser.pick_type().unwrap(), JceType::Zero);
        assert_eq!(parser.pick_head().unwrap(), (0xab, JceType::Zero));
        assert!(!parser.done());
    }
}

#[test]
fn parser_i8() {
    let bytes = hex("00 12");
    let mut parser = JceParser::from_bytes(&bytes);
    assert_eq!(parser.i8(), Ok(0x12_i8));
    assert!(parser.done());
}

#[test]
fn parser_i16() {
    let bytes = hex("01 1234");
    let mut parser = JceParser::from_bytes(&bytes);
    assert_eq!(parser.i16(), Ok(0x1234_i16));
    assert!(parser.done());
}

#[test]
fn parser_i32() {
    let bytes = hex("02 12345678");
    let mut parser = JceParser::from_bytes(&bytes);
    assert_eq!(parser.i32(), Ok(0x12345678_i32));
    assert!(parser.done());
}

#[test]
fn parser_i64() {
    let bytes = hex("03 0123456789abcdef");
    let mut parser = JceParser::from_bytes(&bytes);
    assert_eq!(parser.i64(), Ok(0x0123456789abcdef_i64));
    assert!(parser.done());
}

#[test]
fn parser_f32() {
    let bytes = hex("04 12345678");
    let mut parser = JceParser::from_bytes(&bytes);
    assert_eq!(
        parser.f32_bits(),
        Ok(f32::from_be_bytes([0x12, 0x34, 0x56, 0x78]).to_bits())
    );
    assert!(parser.done());
}

#[test]
fn parser_f64() {
    let bytes = hex("05 0123456789abcdef");
    let mut parser = JceParser::from_bytes(&bytes);
    let v = f64::from_be_bytes([0x01, 0x23, 0x45, 0x67, 0x89, 0xab, 0xcd, 0xef]);
    assert_eq!(parser.f64_bits(), Ok(v.to_bits()));
    assert!(parser.done());
}

#[test]
fn parser_str_small() {
    let bytes = hex("06 04 31323334");
    let mut parser = JceParser::from_bytes(&bytes);
    assert_eq!(parser.str_small(), Ok("1234"));
    assert!(parser.done());
}

#[test]
fn parser_str_big() {
    let mut bytes = hex("07 0000012c");
    bytes.extend([0x7f_u8; 300]);
    let expected = "\x7f".repeat(300);
    let mut parser = JceParser::from_bytes(&bytes);
    assert_eq!(parser.str_big(), Ok(expected.as_str()));
    assert!(parser.done());
}

#[test]
fn parser_str() {
    let bytes = hex("06 04 31323334");
    let mut parser = JceParser::from_bytes(&bytes);
    assert_eq!(parser.str(), Ok("1234"));
    assert!(parser.done());
}

#[test]
fn parser_map() {
    let bytes = hex(MAP_BYTES);
    let mut parser = JceParser::from_bytes(&bytes);
    assert_eq!(parser.map(), Ok(2));
    assert_eq!(parser.str(), Ok("first"));
    assert_eq!(parser.str(), Ok("first_value"));
    assert_eq!(parser.str(), Ok("second"));
    assert_eq!(parser.str(), Ok("second_value"));
    assert!(parser.done());
}

#[test]
fn parser_list() {
    let bytes = hex(LIST_BYTES);
    let mut parser = JceParser::from_bytes(&bytes);
    assert_eq!(parser.list(), Ok(2));
    assert_eq!(parser.str(), Ok("first"));
    assert_eq!(parser.str(), Ok("second"));
    assert!(parser.done());
}

#[test]
fn parser_jce_struct() {
    let bytes = hex("0a 1012 213456 0b");
    let mut parser = JceParser::from_bytes(&bytes);
    assert_eq!(parser.struct_begin(), Ok(()));
    assert_eq!(parser.pick_tag(), Ok(1));
    assert_eq!(parser.i8(), Ok(0x12));
    assert_eq!(parser.pick_tag(), Ok(2));
    assert_eq!(parser.i16(), Ok(0x3456));
    assert_eq!(parser.struct_end(), Ok(()));
    assert!(parser.done());
}

#[test]
fn parser_zero() {
    let bytes = hex("0c");
    let mut parser = JceParser::from_bytes(&bytes);
    assert_eq!(parser.zero(), Ok(()));
    assert!(parser.done());
}

#[test]
fn parser_bytes() {
    let bytes = hex("0d 00 0008 0123456789abcdef");
    let expected = hex("0123456789abcdef");
    let mut parser = JceParser::from_bytes(&bytes);
    assert_eq!(parser.bytes(), Ok(expected.as_slice()));
    assert!(parser.done());
}

#[test]
fn long_tag() {
    let bytes = hex("f0 0f 12");
    let mut parser = JceParser::from_bytes(&bytes);
    assert_eq!(parser.pick_tag(), Ok(0x0f));
    assert_eq!(parser.i8(), Ok(0x12));
    assert!(parser.done());
}

#[test]
fn downgraded() {
    let bytes = hex("00 12");
    let mut parser = JceParser::from_bytes(&bytes);
    assert_eq!(parser.pick_type(), Ok(JceType::I8));
    assert_eq!(parser.i16(), Ok(0x12));
}

#[test]
fn ignore_i8() {
    let bytes = hex("00 12 10 12");
    let mut parser = JceParser::from_bytes(&bytes);
    assert_eq!(parser.ignore(), Ok(()));
    assert_eq!(parser.i8(), Ok(0x12));
}

#[test]
fn ignore_str() {
    let bytes = hex("06 04 31323334 10 12");
    let mut parser = JceParser::from_bytes(&bytes);
    assert_eq!(parser.ignore(), Ok(()));
    assert_eq!(parser.i8(), Ok(0x12));
}

#[test]
fn ignore_map() {
    let mut bytes = hex(MAP_BYTES);
    bytes.extend(hex("10 12"));
    let mut parser = JceParser::from_bytes(&bytes);
    assert_eq!(parser.ignore(), Ok(()));
    assert_eq!(parser.i8(), Ok(0x12));
}

#[test]
fn ignore_list() {
    let mut bytes = hex(LIST_BYTES);
    bytes.extend(hex("10 12"));
    let mut parser = JceParser::from_bytes(&bytes);
    assert_eq!(parser.ignore(), Ok(()));
    assert_eq!(parser.i8(), Ok(0x12));
}

#[test]
fn ignore_struct() {
    let bytes = hex("0a 00 34 10 34 0b 10 12");
    let mut parser = JceParser::from_bytes(&bytes);
    assert_eq!(parser.ignore(), Ok(()));
    assert_eq!(parser.i8(), Ok(0x12));
}

#[test]
fn ignore_zero() {
    let bytes = hex("0c 10 12");
    let mut parser = JceParser::from_bytes(&bytes);
    assert_eq!(parser.ignore(), Ok(()));
    assert_eq!(parser.i8(), Ok(0x12));
}

#[test]
fn ignore_bytes() {
    let bytes = hex("0d 00 0008 0123456789abcdef 10 12");
    let mut parser = JceParser::from_bytes(&bytes);
    assert_eq!(parser.ignore(), Ok(()));
    assert_eq!(parser.i8(), Ok(0x12));
}

#[test]
fn extra_input() {
    let bytes = hex("00 12 34");
    let mut parser = JceParser::from_bytes(&bytes);
    assert_eq!(parser.i8(), Ok(0x12));
    assert_eq!(parser.done(), false);
}

#[test]
fn less_input() {
    let bytes = hex("03 12 34");
    let mut parser = JceParser::from_bytes(&bytes);
    assert!(parser.i64().is_err());
}

#[test]
fn less_input_unfixed() {
    let bytes = hex("09 0002 06 05 6669727374");
    let mut parser = JceParser::from_bytes(&bytes);
    assert_eq!(parser.list(), Ok(2));
    assert_eq!(parser.pick_type(), Ok(JceType::String1));
    assert_eq!(parser.str(), Ok("first"));
    assert!(parser.str().is_err());
}

#[test]
fn wrong_parse() {
    let bytes = hex("03 0123456789abcdef");
    let mut parser = JceParser::from_bytes(&bytes);
    assert_eq!(parser.pick_type(), Ok(JceType::I64));
    assert!(parser.i16().is_err());
}

#[test]
fn parser_zero_reads_as_zero_for_every_int_width() {
    let bytes = hex("0c 0c 0c 0c");
    let mut parser = JceParser::from_bytes(&bytes);
    assert_eq!(parser.i8(), Ok(0));
    assert_eq!(parser.i16(), Ok(0));
    assert_eq!(parser.i32(), Ok(0));
    assert_eq!(parser.i64(), Ok(0));
    assert!(parser.done());
}

#[test]
fn parser_long_form_tag_example() {
    let bytes = hex("f0 0a 12");
    let mut parser = JceParser::from_bytes(&bytes);
    assert_eq!(parser.pick_head(), Ok((10, JceType::I8)));
    assert_eq!(parser.i8(), Ok(0x12));
    assert!(parser.done());
}

#[test]
fn parser_long_form_small_tag_consumes_both_bytes() {
    let bytes = hex("f0 05 12 10 34");
    let mut parser = JceParser::from_bytes(&bytes);
    assert_eq!(parser.pick_tag(), Ok(5));
    assert_eq!(parser.i8(), Ok(0x12));
    assert_eq!(parser.pick_tag(), Ok(1));
    assert_eq!(parser.i8(), Ok(0x34));
}

#[test]
fn parser_widening_signs() {
    let bytes = hex("00 ff 01 8000 02 80000000");
    let mut parser = JceParser::from_bytes(&bytes);
    assert_eq!(parser.i64(), Ok(-1));
    assert_eq!(parser.i64(), Ok(-32768));
    assert_eq!(parser.i64(), Ok(-2147483648));
    assert!(parser.done());
}

#[test]
fn parser_errors() {
    let bytes = hex("0e");
    let parser = JceParser::from_bytes(&bytes);
    assert_eq!(parser.pick_type(), Err(Error::UnknownJceType));
    let bytes: Vec<u8> = vec![];
    let mut parser = JceParser::from_bytes(&bytes);
    assert_eq!(parser.i8(), Err(Error::NotEnoughtBytes));
    let bytes = hex("f0");
    let parser = JceParser::from_bytes(&bytes);
    assert_eq!(parser.pick_head(), Err(Error::NotEnoughtBytes));
    let bytes = hex("01 1234");
    let mut parser = JceParser::from_bytes(&bytes);
    assert_eq!(parser.i8(), Err(Error::WrongType));
    let bytes = hex("09 00 ff");
    let mut parser = JceParser::from_bytes(&bytes);
    assert_eq!(parser.list(), Err(Error::WrongLength));
    let bytes = hex("06 02 c328");
    let mut parser = JceParser::from_bytes(&bytes);
    assert_eq!(parser.str(), Err(Error::StringIsNotUtf8));
    let bytes = hex("0d 01 00 02");
    let mut parser = JceParser::from_bytes(&bytes);
    assert_eq!(parser.bytes(), Err(Error::WrongType));
}

#[test]
fn parser_f64_widens_single() {
    let cases: Vec<f32> = vec![
        0.0,
        -0.0,
        1.5,
        -2.25,
        f32::MAX,
        f32::MIN_POSITIVE,
        1.0e-40,
        -1.4e-45,
        f32::INFINITY,
        f32::NEG_INFINITY,
    ];
    for v in cases {
        let mut bytes = vec![0x04];
        bytes.extend(v.to_be_bytes());
        let mut parser = JceParser::from_bytes(&bytes);
        assert_eq!(parser.f64_bits(), Ok((v as f64).to_bits()), "value {}", v);
        assert_eq!(serde_jce::parser::widen_f32_bits(v.to_bits()), (v as f64).to_bits());
    }
    let nan = f32::NAN;
    let widened = f64::from_bits(serde_jce::parser::widen_f32_bits(nan.to_bits()));
    assert!(widened.is_nan());
}

#[test]
fn parser_invalid_utf8_consumes_payload() {
    let bytes = hex("06 02 c328 10 12");
    let mut parser = JceParser::from_bytes(&bytes);
    assert_eq!(parser.str(), Err(Error::StringIsNotUtf8));
    assert_eq!(parser.i8(), Ok(0x12));
    assert!(parser.done());
}

#[test]
fn parser_reads_empty_string_from_zero() {
    let bytes = hex("0c 06 00");
    let mut parser = JceParser::from_bytes(&bytes);
    assert_eq!(parser.str(), Ok(""));
    assert_eq!(parser.str(), Ok(""));
    assert!(parser.done());
}
