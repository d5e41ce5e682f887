use serde_jce::Jcebuilder;

fn hex(s: &str) -> Vec<u8> {
    let digits: Vec<u8> = s.bytes().filter(|c| !c.is_ascii_whitespace()).collect();
    digits
        .chunks(2)
        .map(|p| u8::from_str_radix(std::str::from_utf8(p).unwrap(), 16).unwrap())
        .collect()
}

#[test]
fn const_check() {
    assert_eq!(
        u32::try_from(Jcebuilder::STRING_MAX_LENGTH).unwrap(),
        u32::MAX
    );
    assert_eq!(
        i32::try_from(Jcebuilder::BYTES_MAX_LENGTH).unwrap(),
        i32::MAX
    );
}

#[test]
fn big_tag() {
    let mut builder = Jcebuilder::new();
    builder.i8(0xab, 0x12);
    assert_eq!(builder.done(), hex("f0 ab 12"));
}

#[test]
fn builder_i8() {
    let mut builder = Jcebuilder::new();
    builder.i8(0, 0x12);
    assert_eq!(builder.done(), hex("00 12"));
}

#[test]
fn builder_i16() {
    let mut builder = Jcebuilder::new();
    builder.i16(0, 0x1234);
    assert_eq!(builder.done(), hex("01 1234"));
}

#[test]
fn builder_i32() {
    let mut builder = Jcebuilder::new();
    builder.i32(0, 0x12345678);
    assert_eq!(builder.done(), hex("02 12345678"));
}

#[test]
fn builder_i64() {
    let mut builder = Jcebuilder::new();
    builder.i64(0, 0x0123456789abcdef);
    assert_eq!(builder.done(), hex("03 0123456789abcdef"));
}

#[test]
fn builder_f32() {
    let mut builder = Jcebuilder::new();
    builder.f32_bits(0, f32::from_be_bytes([0x12, 0x34, 0x56, 0x78]).to_bits());
    assert_eq!(builder.done(), hex("04 12345678"));
}

#[test]
fn builder_f64() {
    let mut builder = Jcebuilder::new();
    let v = f64::from_be_bytes([0x01, 0x23, 0x45, 0x67, 0x89, 0xab, 0xcd, 0xef]);
    builder.f64_bits(0, v.to_bits());
    assert_eq!(builder.done(), hex("05 0123456789abcdef"));
}

#[test]
fn builder_str() {
    let mut builder = Jcebuilder::new();
    builder.str(0, "1234");
    assert_eq!(builder.done(), hex("06 04 31323334"));
}

#[test]
fn str_long() {
    let mut builder = Jcebuilder::new();
    let str = "\x7f".repeat(300);
    builder.str(0, &str);
    let expected: Vec<u8> = hex("07 0000012c")
        .into_iter()
        .chain([0x7f; 300].into_iter())
        .collect();
    assert_eq!(builder.done(), expected);
}

#[test]
fn builder_map() {
    let mut builder = Jcebuilder::new();
    builder
        .map_begin(0, 2)
        .str(0, "first")
        .str(1, "first_value")
        .str(0, "second")
        .str(1, "second_value");
    let expected = hex("08 0002 06 05 6669727374 16 0b 66697273745f76616c7565 06 06 7365636f6e64 16 0c 7365636f6e645f76616c7565");
    assert_eq!(builder.done(), expected);
}

#[test]
fn builder_list() {
    let mut builder = Jcebuilder::new();
    builder.list_begin(0, 2).str(0, "first").str(0, "second");
    let expected = hex("09 0002 06 05 6669727374 06 06 7365636f6e64");
    assert_eq!(builder.done(), expected);
}

#[test]
fn builder_jce_struct() {
    let mut builder = Jcebuilder::new();
    builder
        .struct_begin(0)
        .i8(1, 0x12)
        .i16(2, 0x3456)
        .struct_end();
    let expected = hex("0a 10 12 21 3456 0b");
    assert_eq!(builder.done(), expected);
}

#[test]
fn builder_zero() {
    let mut builder = Jcebuilder::new();
    builder.zero(0);
    assert_eq!(builder.done(), hex("0c"));
}

#[test]
fn builder_bytes() {
    let mut builder = Jcebuilder::new();
    builder.bytes(0, &hex("0123456789abcdef"));
    assert_eq!(builder.done(), hex("0d 00 0008 0123456789abcdef"));
}

#[test]
fn builder_struct_record_example() {
    let mut builder = Jcebuilder::new();
    builder.struct_begin(0).i8(0, 0x12).i16(1, 0x3456).struct_end();
    assert_eq!(builder.done(), hex("0a 00 12 11 34 56 0b"));
}

#[test]
fn builder_bytes_short_length_narrowed() {
    let mut builder = Jcebuilder::new();
    builder.bytes(0, &[0x01, 0x02]);
    assert_eq!(builder.done(), hex("0d 00 00 02 01 02"));
}

#[test]
fn builder_bytes_empty() {
    let mut builder = Jcebuilder::new();
    builder.bytes(0, &[]);
    assert_eq!(builder.done(), hex("0d 00 0c"));
}

#[test]
fn builder_narrowing_boundaries() {
    let cases: Vec<(i64, &str)> = vec![
        (0, "0c"),
        (1, "00 01"),
        (-1, "00 ff"),
        (127, "00 7f"),
        (-128, "00 80"),
        (128, "01 0080"),
        (-129, "01 ff7f"),
        (32767, "01 7fff"),
        (-32768, "01 8000"),
        (32768, "02 00008000"),
        (-32769, "02 ffff7fff"),
        (2147483647, "02 7fffffff"),
        (-2147483648, "02 80000000"),
        (2147483648, "03 0000000080000000"),
        (i64::MIN, "03 8000000000000000"),
        (i64::MAX, "03 7fffffffffffffff"),
    ];
    for (v, expected) in cases {
        let mut builder = Jcebuilder::new();
        builder.i64(0, v);
        assert_eq!(builder.done(), hex(expected), "value {}", v);
    }
}

#[test]
fn builder_zero_elision_all_widths() {
    let mut builder = Jcebuilder::new();
    builder.i8(1, 0).i16(2, 0).i32(3, 0).i64(4, 0);
    assert_eq!(builder.done(), hex("1c 2c 3c 4c"));
}

#[test]
fn builder_long_tag_boundary() {
    let mut builder = Jcebuilder::new();
    builder.zero(14).zero(15).zero(255);
    assert_eq!(builder.done(), hex("ec fc 0f fc ff"));
}

#[test]
fn builder_empty_string_elided() {
    let mut builder = Jcebuilder::new();
    builder.str(0, "").str(3, "");
    assert_eq!(builder.done(), hex("0c 3c"));
}

#[test]
fn builder_string_boundary_255() {
    let mut builder = Jcebuilder::new();
    let s = "a".repeat(255);
    builder.str(0, &s);
    let out = builder.done();
    assert_eq!(&out[..2], &[0x06, 0xff]);
    assert_eq!(out.len(), 257);
    let mut builder = Jcebuilder::new();
    let s = "a".repeat(256);
    builder.str(0, &s);
    let out = builder.done();
    assert_eq!(&out[..5], &[0x07, 0x00, 0x00, 0x01, 0x00]);
    assert_eq!(out.len(), 261);
}
