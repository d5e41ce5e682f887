use serde_jce::names::field_tags;
use serde_jce::{Deserializer, Error, JceParser, JceType, TagsAccess, Value};

fn hex(s: &str) -> Vec<u8> {
    let digits: Vec<u8> = s.bytes().filter(|c| !c.is_ascii_whitespace()).collect();
    digits
        .chunks(2)
        .map(|p| u8::from_str_radix(std::str::from_utf8(p).unwrap(), 16).unwrap())
        .collect()
}

#[derive(Debug, PartialEq)]
struct Two {
    v0: i8,
    v1: i16,
}

fn read_two(p: &mut JceParser, tags: &[u8]) -> Result<Two, Error> {
    let mut acc = TagsAccess::new_with_fields(tags)?;
    let mut out = Two { v0: 0, v1: 0 };
    while let Some(tag) = acc.next_key(p)? {
        if tag == tags[0] {
            out.v0 = p.i8()?;
        } else {
            out.v1 = p.i16()?;
        }
    }
    Ok(out)
}

fn decode_two(bytes: &[u8], tags: &[u8]) -> Result<Two, Error> {
    let mut de = Deserializer::from_bytes(bytes);
    de.parser.struct_begin()?;
    let t = read_two(&mut de.parser, tags)?;
    if de.done() {
        Ok(t)
    } else {
        Err(Error::TrailingBytes)
    }
}

#[test]
fn extra_bytes() {
    let res = Value::from_bytes(&hex("00 12 34"));
    assert!(res.is_err());
    assert_eq!(res, Err(Error::TrailingBytes));
}

#[test]
fn de_struct_tag_error() {
    let bytes = hex("0a 0001 1002 0b");
    let res = field_tags(&["0", "0"]).and_then(|tags| decode_two(&bytes, &tags));
    assert!(res.is_err());
    assert_eq!(res, Err(Error::DuplicateFieldTagName));
}

#[test]
fn data_tag_error() {
    let bytes = hex("0a 0001 0002 0b");
    let res = decode_two(&bytes, &[0, 1]);
    assert!(res.is_err());
    assert_eq!(res, Err(Error::DuplicateFieldTag));
}

#[test]
fn struct_tag_skip() {
    let bytes = hex("0a 0001 1002 2003 3004 4005 0b");
    let mut de = Deserializer::from_bytes(&bytes);
    de.parser.struct_begin().unwrap();
    let mut acc = TagsAccess::new_with_fields(&[1, 3]).unwrap();
    let mut v0: i8 = 0;
    let mut v1: i8 = 0;
    let mut res: Result<(), Error> = Ok(());
    loop {
        match acc.next_key(&mut de.parser) {
            Ok(Some(1)) => v0 = de.parser.i8().unwrap(),
            Ok(Some(_)) => v1 = de.parser.i8().unwrap(),
            Ok(None) => break,
            Err(e) => {
                res = Err(e);
                break;
            }
        }
    }
    assert!(res.is_ok());
    assert_eq!((v0, v1), (2, 4));
    assert!(de.done());
}

#[derive(Debug, PartialEq)]
struct Whole {
    v0: i8,
    v1: i16,
    v2: i32,
    v3: i64,
    v4: u32,
    v5: u64,
    v6: String,
    v7: String,
    v8: Vec<(i8, i8)>,
    v9: Vec<i8>,
    v10: Two,
    v12: Option<u8>,
    v13: Vec<u8>,
    v200: i8,
}

fn read_whole(p: &mut JceParser) -> Result<Whole, Error> {
    p.struct_begin()?;
    let mut acc = TagsAccess::new_with_fields(&[0, 1, 2, 3, 4, 5, 6, 7, 8, 9, 10, 12, 13, 200])?;
    let mut w = Whole {
        v0: 0,
        v1: 0,
        v2: 0,
        v3: 0,
        v4: 0,
        v5: 0,
        v6: String::new(),
        v7: String::new(),
        v8: Vec::new(),
        v9: Vec::new(),
        v10: Two { v0: 0, v1: 0 },
        v12: None,
        v13: Vec::new(),
        v200: 0,
    };
    while let Some(tag) = acc.next_key(p)? {
        match tag {
            0 => w.v0 = p.i8()?,
            1 => w.v1 = p.i16()?,
            2 => w.v2 = p.i32()?,
            3 => w.v3 = p.i64()?,
            4 => w.v4 = p.f32_bits()?,
            5 => w.v5 = p.f64_bits()?,
            6 => w.v6 = p.str()?.to_owned(),
            7 => w.v7 = p.str()?.to_owned(),
            8 => {
                let n = p.map()?;
                for _ in 0..n {
                    let k = p.i8()?;
                    let v = p.i8()?;
                    w.v8.push((k, v));
                }
            }
            9 => {
                let n = p.list()?;
                for _ in 0..n {
                    w.v9.push(p.i8()?);
                }
            }
            10 => {
                p.struct_begin()?;
                w.v10 = read_two(p, &[0, 1])?;
            }
            12 => {
                if p.pick_type()? == JceType::Zero {
                    p.zero()?;
                    w.v12 = None;
                } else {
                    w.v12 = Some(p.i16()? as u8);
                }
            }
            13 => w.v13 = p.bytes()?.to_vec(),
            _ => w.v200 = p.i8()?,
        }
    }
    Ok(w)
}

fn whole_bytes() -> Vec<u8> {
    let mut bytes = hex(
        "0a 00 01 11 0123 22 01234567 33 0123456789abcdef 44 12345678 55 8877665544332211 66 04 12345678 77 0000012c",
    );
    bytes.extend([0x7f_u8; 300]);
    bytes.extend(hex(
        "88 0002 0001 1002 0003 1004 99 0004 0001 0002 0003 0004 aa 0012 111234 0b cc dd00 0004 11223344 f0c8 01 0b",
    ));
    bytes
}

#[test]
fn whole_struct() {
    let bytes = whole_bytes();
    let mut de = Deserializer::from_bytes(&bytes);
    let val = read_whole(&mut de.parser).unwrap();
    assert!(de.done());
    let expected = Whole {
        v0: 0x01,
        v1: 0x0123,
        v2: 0x01234567,
        v3: 0x0123456789abcdef,
        v4: f32::from_be_bytes([0x12, 0x34, 0x56, 0x78]).to_bits(),
        v5: f64::from_be_bytes([0x88, 0x77, 0x66, 0x55, 0x44, 0x33, 0x22, 0x11]).to_bits(),
        v6: String::from("\x12\x34\x56\x78"),
        v7: "\x7f".repeat(300),
        v8: vec![(1, 2), (3, 4)],
        v9: vec![1, 2, 3, 4],
        v10: Two {
            v0: 0x12,
            v1: 0x1234,
        },
        v12: None,
        v13: vec![0x11, 0x22, 0x33, 0x44],
        v200: 0x01,
    };
    assert_eq!(val, expected);
}

#[test]
fn de_unknown_field_then_expected_field() {
    let bytes = hex("0a 00 34 10 34 0b 10 12");
    let mut de = Deserializer::from_bytes(&bytes);
    de.parser.struct_begin().unwrap();
    let mut acc = TagsAccess::new_with_fields(&[1]).unwrap();
    assert_eq!(acc.next_key(&mut de.parser), Ok(Some(1)));
    assert_eq!(de.parser.i8(), Ok(0x34));
    assert_eq!(acc.next_key(&mut de.parser), Ok(None));
    assert_eq!(de.parser.i8(), Ok(0x12));
    assert!(de.done());
}

#[test]
fn de_skips_nested_unknown_fields() {
    let bytes = hex("0a 09 0002 06 01 61 06 01 62 1a 00 01 0b 20 07 0b");
    let mut de = Deserializer::from_bytes(&bytes);
    de.parser.struct_begin().unwrap();
    let mut acc = TagsAccess::new_with_fields(&[2]).unwrap();
    assert_eq!(acc.next_key(&mut de.parser), Ok(Some(2)));
    assert_eq!(de.parser.i8(), Ok(7));
    assert_eq!(acc.next_key(&mut de.parser), Ok(None));
    assert!(de.done());
}

#[test]
fn de_get_tag_without_fields() {
    let bytes = hex("10 01 20 02 10 03 0b");
    let mut p = JceParser::from_bytes(&bytes);
    let mut acc = TagsAccess::new();
    assert_eq!(acc.get_tag(&mut p), Ok(Some(1)));
    assert_eq!(p.i8(), Ok(1));
    assert_eq!(acc.next_key(&mut p), Ok(Some(2)));
    assert_eq!(p.i8(), Ok(2));
    assert_eq!(acc.get_tag(&mut p), Err(Error::DuplicateFieldTag));
}

#[test]
fn de_field_tags_first_error_wins() {
    assert_eq!(field_tags(&["0", "0", "x"]), Err(Error::DuplicateFieldTagName));
    assert_eq!(field_tags(&["x", "0", "0"]), Err(Error::ErrorFieldTag));
    assert_eq!(field_tags(&["1", "+2", "007", "255"]), Ok(vec![1, 2, 7, 255]));
    assert_eq!(field_tags(&["256"]), Err(Error::ErrorFieldTag));
    assert_eq!(field_tags(&[""]), Err(Error::ErrorFieldTag));
    assert_eq!(field_tags(&["-1"]), Err(Error::ErrorFieldTag));
    assert_eq!(field_tags(&["+"]), Err(Error::ErrorFieldTag));
    assert_eq!(field_tags(&[]), Ok(vec![]));
}
