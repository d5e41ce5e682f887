use serde_jce::{Error, Value};
use std::cmp::Ordering;

fn hex(s: &str) -> Vec<u8> {
    let digits: Vec<u8> = s.bytes().filter(|c| !c.is_ascii_whitespace()).collect();
    digits
        .chunks(2)
        .map(|p| u8::from_str_radix(std::str::from_utf8(p).unwrap(), 16).unwrap())
        .collect()
}

fn text(s: &str) -> Value {
    Value::String(s.to_owned())
}

#[test]
fn value_zero() {
    let val = Value::Zero;
    let bytes = hex("0c");
    assert_eq!(val.to_bytes(), Ok(bytes.to_vec()));
    assert_eq!(Value::from_bytes(&bytes), Ok(val));
}

#[test]
fn int_i8() {
    let val = Value::Int(0x12);
    let bytes = hex("00 12");
    assert_eq!(val.to_bytes(), Ok(bytes.to_vec()));
    assert_eq!(Value::from_bytes(&bytes), Ok(val));
}

#[test]
fn int_i64() {
    let val = Value::Int(0x0123456789abcdef);
    let bytes = hex("03 0123456789abcdef");
    assert_eq!(val.to_bytes(), Ok(bytes.to_vec()));
    assert_eq!(Value::from_bytes(&bytes), Ok(val));
}

#[test]
fn f32() {
    let val = Value::Float(f32::from_be_bytes([0x12, 0x34, 0x56, 0x78]).to_bits());
    let bytes = hex("04 12345678");
    assert_eq!(val.to_bytes(), Ok(bytes.to_vec()));
    assert_eq!(Value::from_bytes(&bytes), Ok(val));
}

#[test]
fn f64() {
    let d = f64::from_be_bytes([0x01, 0x23, 0x45, 0x67, 0x89, 0xab, 0xcd, 0xef]);
    let val = Value::Double(d.to_bits());
    let bytes = hex("05 0123456789abcdef");
    assert_eq!(val.to_bytes(), Ok(bytes.to_vec()));
    assert_eq!(Value::from_bytes(&bytes), Ok(val));
}

#[test]
fn string() {
    let val = text("1234");
    let bytes = hex("06 04 31323334");
    assert_eq!(val.to_bytes(), Ok(bytes.to_vec()));
    assert_eq!(Value::from_bytes(&bytes), Ok(val));
}

#[test]
fn bytes() {
    let val = Value::Bytes(hex("12345678"));
    let bytes = hex("0d 00 0004 12345678");
    assert_eq!(val.to_bytes(), Ok(bytes.to_vec()));
    assert_eq!(Value::from_bytes(&bytes), Ok(val));
}

#[test]
fn value_list() {
    let val = Value::List(vec![
        Value::Int(0x12),
        Value::Int(0x1234),
        Value::Bytes(hex("12345678")),
    ]);
    let bytes = hex("09 0003 0012 011234 0d 00 0004 12345678");
    assert_eq!(val.to_bytes(), Ok(bytes.to_vec()));
    assert_eq!(Value::from_bytes(&bytes), Ok(val));
}

#[test]
fn value_map() {
    let val = Value::Mapping(vec![
        (text("first"), text("first_value")),
        (text("second"), text("second_value")),
    ]);
    let bytes = hex(
        "08 0002 06 05 6669727374 16 0b 66697273745f76616c7565 06 06 7365636f6e64 16 0c 7365636f6e645f76616c7565",
    );
    assert_eq!(val.to_bytes(), Ok(bytes.to_vec()));
    assert_eq!(Value::from_bytes(&bytes), Ok(val));
}

#[test]
fn obj() {
    let val = Value::Object(vec![(1, text("first")), (2, text("second")), (3, text("third"))]);
    let bytes = hex("0a 16 05 6669727374 26 06 7365636f6e64 36 05 7468697264 0b");
    assert_eq!(val.to_bytes(), Ok(bytes.to_vec()));
    assert_eq!(Value::from_bytes(&bytes), Ok(val));
}

#[test]
fn value_round_trip_nested() {
    let val = Value::Object(vec![
        (0, Value::Int(-5)),
        (3, Value::List(vec![Value::Zero, text("x"), Value::Double(0x4000_0000_0000_0000)])),
        (
            20,
            Value::Mapping(vec![
                (Value::Int(1), Value::Bytes(vec![])),
                (text("k"), Value::Object(vec![(255, Value::Int(i64::MIN))])),
            ]),
        ),
    ]);
    let bytes = val.to_bytes().unwrap();
    assert_eq!(Value::from_bytes(&bytes), Ok(val));
}

#[test]
fn value_decode_sorts_map_and_struct() {
    let bytes = hex("08 0002 06 01 62 10 02 06 01 61 10 01");
    assert_eq!(
        Value::from_bytes(&bytes),
        Ok(Value::Mapping(vec![(text("a"), Value::Int(1)), (text("b"), Value::Int(2))]))
    );
    let bytes = hex("0a 20 02 10 01 0b");
    assert_eq!(
        Value::from_bytes(&bytes),
        Ok(Value::Object(vec![(1, Value::Int(1)), (2, Value::Int(2))]))
    );
}

#[test]
fn value_trailing_bytes() {
    let mut bytes = Value::List(vec![Value::Int(7)]).to_bytes().unwrap();
    bytes.push(0x0c);
    assert_eq!(Value::from_bytes(&bytes), Err(Error::TrailingBytes));
}

#[test]
fn value_duplicate_tags() {
    assert_eq!(
        Value::from_bytes(&hex("0a 0001 0002 0b")),
        Err(Error::DuplicateFieldTag)
    );
    assert_eq!(
        Value::from_bytes(&hex("0a 20 01 10 02 20 03 0b")),
        Err(Error::DuplicateFieldTag)
    );
}

#[test]
fn value_zero_elision() {
    assert_eq!(Value::Int(0).to_bytes(), Ok(hex("0c")));
    assert_eq!(Value::Zero.to_bytes(), Ok(hex("0c")));
    assert_eq!(Value::Int(0).to_bytes_with_tag(3), Ok(hex("3c")));
    assert_eq!(text("").to_bytes(), Ok(hex("0c")));
    assert_eq!(Value::from_bytes(&hex("0c")), Ok(Value::Zero));
}

#[test]
fn value_record_example() {
    let bytes = hex("0a 00 12 11 34 56 0b");
    assert_eq!(
        Value::from_bytes(&bytes),
        Ok(Value::Object(vec![(0, Value::Int(0x12)), (1, Value::Int(0x3456))]))
    );
}

#[test]
fn value_errors() {
    assert_eq!(Value::from_bytes(&hex("0b")), Err(Error::WrongType));
    assert_eq!(Value::from_bytes(&hex("09 0002 0c")), Err(Error::NotEnoughtBytes));
    assert_eq!(Value::from_bytes(&hex("0e")), Err(Error::UnknownJceType));
}

#[test]
fn value_order() {
    let kinds = vec![
        Value::Zero,
        Value::Int(-3),
        Value::Float(0),
        Value::Double(0),
        text(""),
        Value::Bytes(vec![]),
        Value::List(vec![]),
        Value::Mapping(vec![]),
        Value::Object(vec![]),
    ];
    for (i, a) in kinds.iter().enumerate() {
        for (j, b) in kinds.iter().enumerate() {
            assert_eq!(a.cmp(b), i.cmp(&j));
        }
    }
    assert_eq!(Value::Int(-1).cmp(&Value::Int(2)), Ordering::Less);
    assert_eq!(text("ab").cmp(&text("b")), Ordering::Less);
    assert_eq!(text("ab").cmp(&text("a")), Ordering::Greater);
    assert_eq!(
        Value::Float(0x8000_0000).cmp(&Value::Float(1)),
        Ordering::Greater
    );
    assert_eq!(
        Value::List(vec![Value::Int(1), Value::Int(2)]).cmp(&Value::List(vec![Value::Int(1)])),
        Ordering::Greater
    );
    assert_eq!(
        Value::Object(vec![(1, Value::Int(5))]).cmp(&Value::Object(vec![(2, Value::Int(0))])),
        Ordering::Less
    );
}

#[test]
fn value_equality_by_bits() {
    let nan = f64::NAN.to_bits();
    assert_eq!(Value::Double(nan), Value::Double(nan));
    assert_ne!(Value::Double(0.0f64.to_bits()), Value::Double((-0.0f64).to_bits()));
    assert_ne!(Value::Int(1), Value::Float(1));
    assert_eq!(
        Value::Mapping(vec![(text("a"), Value::List(vec![Value::Zero]))]),
        Value::Mapping(vec![(text("a"), Value::List(vec![Value::Zero]))])
    );
    assert_ne!(
        Value::Object(vec![(1, Value::Zero)]),
        Value::Object(vec![(2, Value::Zero)])
    );
    assert_ne!(Value::Bytes(vec![1, 2]), Value::Bytes(vec![1]));
    assert_ne!(text("é"), text("e"));
}

#[test]
fn value_getters_and_from() {
    assert_eq!(Value::from(5i64), Value::Int(5));
    assert_eq!(Value::from("ab"), text("ab"));
    assert_eq!(Value::from(String::from("ab")), text("ab"));
    assert_eq!(Value::Int(7).int_value(), Some(7));
    assert_eq!(text("x").int_value(), None);
    assert_eq!(Value::Int(7).int_ref(), Some(&7));
    let mut v = Value::Int(7);
    if let Some(n) = v.int_mut() {
        *n = 9;
    }
    assert_eq!(v, Value::Int(9));
    assert_eq!(Value::Float(3).float(), Some(3));
    assert_eq!(Value::Double(4).double_ref(), Some(&4));
    assert_eq!(text("s").string(), Some(String::from("s")));
    let mut s = text("s");
    s.string_mut().unwrap().push('t');
    assert_eq!(s.string_ref().map(|x| x.as_str()), Some("st"));
    assert_eq!(Value::Bytes(vec![1]).bytes(), Some(vec![1]));
    let mut l = Value::List(vec![]);
    l.list_mut().unwrap().push(Value::Zero);
    assert_eq!(l.list_ref().map(|x| x.len()), Some(1));
    assert_eq!(Value::Mapping(vec![]).map(), Some(vec![]));
    assert_eq!(Value::Object(vec![(1, Value::Zero)]).obj_ref().map(|x| x.len()), Some(1));
    assert_eq!(Value::Zero.obj(), None);
    assert!(Value::Zero.bytes_mut().is_none());
}
