//! A value of the wire format that needs no schema, with its total order.
use vstd::prelude::*;

use core::cmp::Ordering;

use crate::builder::Jcebuilder;
use crate::error::{Error, Result};
use crate::format::{
    bytes_max, enc_bytes, enc_f32, enc_f64, enc_int, enc_list_begin, enc_map_begin, enc_str, head,
    is_int_type, parse_bytes, parse_f32, parse_f64, parse_head, parse_int, parse_len,
    parse_marker, parse_str, string_max, struct_end_bytes, width,
};
use crate::order::{lemma_decoded_ordered, ordered};
use crate::parser::JceParser;
use crate::serializer::StructSerializer;
use crate::types::JceType;
use vstd::utf8::encode_utf8;

verus! {

/// Any value that the wire format can carry. Floats are held as their bit patterns.
///
/// Decoding puts a `Mapping`'s entries in ascending order of key (the order of `cmp`) and
/// an `Object`'s fields in strictly ascending order of tag (`order::ordered`); encoding
/// writes them in the order held. `laws::canonical` says when a value is in the form that
/// decoding gives back exactly.
#[derive(Debug, Eq)]
pub enum Value {
    Zero,
    Int(i64),
    Float(u32),
    Double(u64),
    String(String),
    Bytes(Vec<u8>),
    List(Vec<Value>),
    Mapping(Vec<(Value, Value)>),
    Object(Vec<(u8, Value)>),
}

/// The mathematical content of a `Value`.
pub enum ValueView {
    Zero,
    Int(int),
    Float(u32),
    Double(u64),
    Str(Seq<char>),
    Bytes(Seq<u8>),
    List(Seq<ValueView>),
    Mapping(Seq<(ValueView, ValueView)>),
    Object(Seq<(u8, ValueView)>),
}

impl View for Value {
    type V = ValueView;

    open spec fn view(&self) -> ValueView
        decreases self, 0int,
    {
        match self {
            Value::Zero => ValueView::Zero,
            Value::Int(n) => ValueView::Int(*n as int),
            Value::Float(b) => ValueView::Float(*b),
            Value::Double(b) => ValueView::Double(*b),
            Value::String(s) => ValueView::Str(s@),
            Value::Bytes(b) => ValueView::Bytes(b@),
            Value::List(v) => ValueView::List(list_view(*v)),
            Value::Mapping(v) => ValueView::Mapping(entries_view(*v)),
            Value::Object(v) => ValueView::Object(fields_view(*v)),
        }
    }
}

/// The views of the elements of a list.
pub open spec fn list_view(v: Vec<Value>) -> Seq<ValueView>
    decreases v, 1int,
{
    Seq::new(
        v@.len(),
        |i: int|
            if 0 <= i < v@.len() {
                v@[i].view()
            } else {
                ValueView::Zero
            },
    )
}

/// The views of the entries of a map.
pub open spec fn entries_view(v: Vec<(Value, Value)>) -> Seq<(ValueView, ValueView)>
    decreases v, 1int,
{
    Seq::new(
        v@.len(),
        |i: int|
            if 0 <= i < v@.len() {
                (v@[i].0.view(), v@[i].1.view())
            } else {
                (ValueView::Zero, ValueView::Zero)
            },
    )
}

/// The views of the fields of a struct.
pub open spec fn fields_view(v: Vec<(u8, Value)>) -> Seq<(u8, ValueView)>
    decreases v, 1int,
{
    Seq::new(
        v@.len(),
        |i: int|
            if 0 <= i < v@.len() {
                (v@[i].0, v@[i].1.view())
            } else {
                (0u8, ValueView::Zero)
            },
    )
}

/// The order of the kinds of value.
pub open spec fn rank(v: ValueView) -> int {
    match v {
        ValueView::Zero => 0,
        ValueView::Int(_) => 1,
        ValueView::Float(_) => 2,
        ValueView::Double(_) => 3,
        ValueView::Str(_) => 4,
        ValueView::Bytes(_) => 5,
        ValueView::List(_) => 6,
        ValueView::Mapping(_) => 7,
        ValueView::Object(_) => 8,
    }
}

pub open spec fn cmp_int(a: int, b: int) -> Ordering {
    if a < b {
        Ordering::Less
    } else if a == b {
        Ordering::Equal
    } else {
        Ordering::Greater
    }
}

/// Lexicographic order of byte strings, from position `i` on.
pub open spec fn cmp_bytes(a: Seq<u8>, b: Seq<u8>, i: nat) -> Ordering
    decreases a.len() - i,
{
    if i >= a.len() || i >= b.len() {
        cmp_int(a.len() as int, b.len() as int)
    } else if a[i as int] != b[i as int] {
        cmp_int(a[i as int] as int, b[i as int] as int)
    } else {
        cmp_bytes(a, b, i + 1)
    }
}

/// The total order of values: first by kind, then within a kind by number, bit pattern,
/// bytes, or lexicographically by elements, entries or fields.
pub open spec fn value_cmp(a: ValueView, b: ValueView) -> Ordering
    decreases a, 0int,
{
    if rank(a) != rank(b) {
        cmp_int(rank(a), rank(b))
    } else {
        match (a, b) {
            (ValueView::Int(x), ValueView::Int(y)) => cmp_int(x, y),
            (ValueView::Float(x), ValueView::Float(y)) => cmp_int(x as int, y as int),
            (ValueView::Double(x), ValueView::Double(y)) => cmp_int(x as int, y as int),
            (ValueView::Str(x), ValueView::Str(y)) => cmp_bytes(encode_utf8(x), encode_utf8(y), 0),
            (ValueView::Bytes(x), ValueView::Bytes(y)) => cmp_bytes(x, y, 0),
            (ValueView::List(x), ValueView::List(y)) => cmp_list(x, y, 0),
            (ValueView::Mapping(x), ValueView::Mapping(y)) => cmp_entries(x, y, 0),
            (ValueView::Object(x), ValueView::Object(y)) => cmp_fields(x, y, 0),
            _ => Ordering::Equal,
        }
    }
}

/// Lexicographic order of lists of values, from position `i` on.
pub open spec fn cmp_list(x: Seq<ValueView>, y: Seq<ValueView>, i: nat) -> Ordering
    decreases x, x.len() - i,
{
    if i >= x.len() || i >= y.len() {
        cmp_int(x.len() as int, y.len() as int)
    } else {
        let c = value_cmp(x[i as int], y[i as int]);
        if c != Ordering::Equal {
            c
        } else {
            cmp_list(x, y, i + 1)
        }
    }
}

/// Lexicographic order of map entries (key, then value), from position `i` on.
pub open spec fn cmp_entries(
    x: Seq<(ValueView, ValueView)>,
    y: Seq<(ValueView, ValueView)>,
    i: nat,
) -> Ordering
    decreases x, x.len() - i,
{
    if i >= x.len() || i >= y.len() {
        cmp_int(x.len() as int, y.len() as int)
    } else {
        let c = value_cmp(x[i as int].0, y[i as int].0);
        if c != Ordering::Equal {
            c
        } else {
            let d = value_cmp(x[i as int].1, y[i as int].1);
            if d != Ordering::Equal {
                d
            } else {
                cmp_entries(x, y, i + 1)
            }
        }
    }
}

/// Lexicographic order of struct fields (tag, then value), from position `i` on.
pub open spec fn cmp_fields(x: Seq<(u8, ValueView)>, y: Seq<(u8, ValueView)>, i: nat) -> Ordering
    decreases x, x.len() - i,
{
    if i >= x.len() || i >= y.len() {
        cmp_int(x.len() as int, y.len() as int)
    } else if x[i as int].0 != y[i as int].0 {
        cmp_int(x[i as int].0 as int, y[i as int].0 as int)
    } else {
        let d = value_cmp(x[i as int].1, y[i as int].1);
        if d != Ordering::Equal {
            d
        } else {
            cmp_fields(x, y, i + 1)
        }
    }
}


/// The concatenation of `ps`.
pub open spec fn concat(ps: Seq<Seq<u8>>) -> Seq<u8>
    decreases ps.len(),
{
    if ps.len() == 0 {
        Seq::empty()
    } else {
        concat(ps.drop_last()) + ps.last()
    }
}

/// The bytes of `v` under `tag`. Map keys go under tag 0 and map values under tag 1; list
/// elements under tag 0; struct fields under their own tags, in the order held.
pub open spec fn enc_value(v: ValueView, tag: u8) -> Seq<u8>
    decreases v, 1int,
{
    match v {
        ValueView::Zero => head(tag, JceType::Zero),
        ValueView::Int(n) => enc_int(tag, n),
        ValueView::Float(b) => enc_f32(tag, b),
        ValueView::Double(b) => enc_f64(tag, b),
        ValueView::Str(cs) => enc_str(tag, encode_utf8(cs)),
        ValueView::Bytes(b) => enc_bytes(tag, b),
        ValueView::List(xs) => enc_list_begin(tag, xs.len() as int) + concat(list_parts(xs)),
        ValueView::Mapping(xs) => enc_map_begin(tag, xs.len() as int) + concat(entry_parts(xs)),
        ValueView::Object(xs) => head(tag, JceType::StructBegin) + concat(field_parts(xs))
            + struct_end_bytes(),
    }
}

/// The bytes of each element of a list.
pub open spec fn list_parts(xs: Seq<ValueView>) -> Seq<Seq<u8>>
    decreases xs, 0int,
{
    Seq::new(
        xs.len(),
        |i: int|
            if 0 <= i < xs.len() {
                enc_value(xs[i], 0)
            } else {
                Seq::empty()
            },
    )
}

/// The bytes of each entry of a map.
pub open spec fn entry_parts(xs: Seq<(ValueView, ValueView)>) -> Seq<Seq<u8>>
    decreases xs, 0int,
{
    Seq::new(
        xs.len(),
        |i: int|
            if 0 <= i < xs.len() {
                enc_value(xs[i].0, 0) + enc_value(xs[i].1, 1)
            } else {
                Seq::empty()
            },
    )
}

/// The bytes of each field of a struct.
pub open spec fn field_parts(xs: Seq<(u8, ValueView)>) -> Seq<Seq<u8>>
    decreases xs, 0int,
{
    Seq::new(
        xs.len(),
        |i: int|
            if 0 <= i < xs.len() {
                enc_value(xs[i].1, xs[i].0)
            } else {
                Seq::empty()
            },
    )
}

/// The first error among `es` from position `i` on.
pub open spec fn first_error(es: Seq<Option<Error>>, i: nat) -> Option<Error>
    decreases es.len() - i,
{
    if i >= es.len() {
        None
    } else if es[i as int] is Some {
        es[i as int]
    } else {
        first_error(es, i + 1)
    }
}

/// Why `v` cannot be encoded, if it cannot: a string, byte string, list or map longer than
/// the format allows, or a struct with a repeated tag; the first met, depth first.
pub open spec fn enc_error(v: ValueView) -> Option<Error>
    decreases v, 1int,
{
    match v {
        ValueView::Str(cs) => if encode_utf8(cs).len() > string_max() {
            Some(Error::StringTooLong)
        } else {
            None
        },
        ValueView::Bytes(b) => if b.len() > bytes_max() {
            Some(Error::BytesTooLong)
        } else {
            None
        },
        ValueView::List(xs) => if xs.len() > 0x7fff_ffff {
            Some(Error::SeqTooLong)
        } else {
            first_error(list_errors(xs), 0)
        },
        ValueView::Mapping(xs) => if xs.len() > 0x7fff_ffff {
            Some(Error::MapTooLong)
        } else {
            first_error(entry_errors(xs), 0)
        },
        ValueView::Object(xs) => first_error(field_errors(xs), 0),
        _ => None,
    }
}

/// Why each element of a list cannot be encoded.
pub open spec fn list_errors(xs: Seq<ValueView>) -> Seq<Option<Error>>
    decreases xs, 0int,
{
    Seq::new(
        xs.len(),
        |i: int|
            if 0 <= i < xs.len() {
                enc_error(xs[i])
            } else {
                None
            },
    )
}

/// Why each entry of a map cannot be encoded.
pub open spec fn entry_errors(xs: Seq<(ValueView, ValueView)>) -> Seq<Option<Error>>
    decreases xs, 0int,
{
    Seq::new(
        xs.len(),
        |i: int|
            if 0 <= i < xs.len() {
                if enc_error(xs[i].0) is Some {
                    enc_error(xs[i].0)
                } else {
                    enc_error(xs[i].1)
                }
            } else {
                None
            },
    )
}

/// Whether the tag of field `i` appears in an earlier field.
pub open spec fn repeats_tag(xs: Seq<(u8, ValueView)>, i: int) -> bool {
    exists|j: int| 0 <= j < i && xs[j].0 == xs[i].0
}

/// Why each field of a struct cannot be encoded: a tag already used, or its value.
pub open spec fn field_errors(xs: Seq<(u8, ValueView)>) -> Seq<Option<Error>>
    decreases xs, 0int,
{
    Seq::new(
        xs.len(),
        |i: int|
            if 0 <= i < xs.len() {
                if repeats_tag(xs, i) {
                    Some(Error::DuplicateFieldTag)
                } else {
                    enc_error(xs[i].1)
                }
            } else {
                None
            },
    )
}

impl Value {
    /// Writes this value under `tag`; its maps and structs must be in the ascending order
    /// that decoding gives (`ordered`). Fails, with `enc_error`, when a string, byte string,
    /// list or map is longer than the format allows; what was written before the failure
    /// stays written.
    pub fn encode(&self, b: &mut Jcebuilder, tag: u8) -> (r: Result<()>)
        requires
            ordered(self@),
        ensures
            match enc_error(self@) {
                None => r is Ok && final(b)@ == old(b)@ + enc_value(self@, tag),
                Some(e) => r == Err::<(), Error>(e),
            },
        decreases self,
    {
        match self {
            Value::Zero => {
                b.zero(tag);
                Ok(())
            },
            Value::Int(n) => {
                b.i64(tag, *n);
                Ok(())
            },
            Value::Float(x) => {
                b.f32_bits(tag, *x);
                Ok(())
            },
            Value::Double(x) => {
                b.f64_bits(tag, *x);
                Ok(())
            },
            Value::String(st) => {
                let sv = st.as_str();
                if sv.as_bytes().len() > Jcebuilder::STRING_MAX_LENGTH {
                    return Err(Error::StringTooLong);
                }
                b.str(tag, sv);
                Ok(())
            },
            Value::Bytes(v) => {
                if v.len() > Jcebuilder::BYTES_MAX_LENGTH {
                    return Err(Error::BytesTooLong);
                }
                b.bytes(tag, v.as_slice());
                Ok(())
            },
            Value::List(x) => {
                proof {
                    assert(list_view(*x).len() == x@.len());
                }
                if x.len() > 0x7fff_ffff {
                    return Err(Error::SeqTooLong);
                }
                b.list_begin(tag, x.len() as i32);
                let ghost xs = list_view(*x);
                proof {
                    reveal(ordered);
                }
                let ghost start = b@;
                let mut i: usize = 0;
                while i < x.len()
                    invariant
                        *self == Value::List(*x),
                        self@ == ValueView::List(xs),
                        xs == list_view(*x),
                        i <= x@.len(),
                        b@ == start + concat(list_parts(xs).take(i as int)),
                        start == old(b)@ + enc_list_begin(tag, xs.len() as int),
                        enc_error(self@) == first_error(list_errors(xs), i as nat),
                        forall|j: int| 0 <= j < xs.len() ==> ordered(#[trigger] xs[j]),
                    decreases x@.len() - i,
                {
                    proof {
                        assert(decreases_to!(self => x));
                        assert(decreases_to!(x => x[i as int]));
                    }
                    match x[i].encode(b, 0) {
                        Ok(()) => {},
                        Err(e) => return Err(e),
                    }
                    proof {
                        assert(list_parts(xs).take(i + 1).drop_last() =~= list_parts(xs).take(
                            i as int,
                        ));
                    }
                    i = i + 1;
                }
                proof {
                    assert(list_parts(xs).take(i as int) =~= list_parts(xs));
                }
                Ok(())
            },
            Value::Mapping(x) => {
                proof {
                    assert(entries_view(*x).len() == x@.len());
                }
                if x.len() > 0x7fff_ffff {
                    return Err(Error::MapTooLong);
                }
                b.map_begin(tag, x.len() as i32);
                let ghost xs = entries_view(*x);
                proof {
                    reveal(ordered);
                }
                let ghost start = b@;
                let mut i: usize = 0;
                while i < x.len()
                    invariant
                        *self == Value::Mapping(*x),
                        self@ == ValueView::Mapping(xs),
                        xs == entries_view(*x),
                        i <= x@.len(),
                        b@ == start + concat(entry_parts(xs).take(i as int)),
                        start == old(b)@ + enc_map_begin(tag, xs.len() as int),
                        enc_error(self@) == first_error(entry_errors(xs), i as nat),
                        forall|j: int|
                            0 <= j < xs.len() ==> ordered(#[trigger] xs[j].0) && ordered(xs[j].1),
                    decreases x@.len() - i,
                {
                    proof {
                        assert(decreases_to!(self => x));
                        assert(decreases_to!(x => x[i as int]));
                    }
                    let ghost before = b@;
                    match x[i].0.encode(b, 0) {
                        Ok(()) => {},
                        Err(e) => return Err(e),
                    }
                    match x[i].1.encode(b, 1) {
                        Ok(()) => {},
                        Err(e) => return Err(e),
                    }
                    proof {
                        assert(entry_parts(xs).take(i + 1).drop_last() =~= entry_parts(xs).take(
                            i as int,
                        ));
                        assert(b@ =~= before + entry_parts(xs)[i as int]);
                    }
                    i = i + 1;
                }
                proof {
                    assert(entry_parts(xs).take(i as int) =~= entry_parts(xs));
                }
                Ok(())
            },
            Value::Object(x) => {
                b.struct_begin(tag);
                let ghost xs = fields_view(*x);
                proof {
                    reveal(ordered);
                }
                let ghost start = b@;
                let mut tags = StructSerializer::new();
                let mut i: usize = 0;
                while i < x.len()
                    invariant
                        *self == Value::Object(*x),
                        self@ == ValueView::Object(xs),
                        xs == fields_view(*x),
                        i <= x@.len(),
                        forall|t: u8|
                            tags@.contains(t) <==> exists|j: int| 0 <= j < i && xs[j].0 == t,
                        b@ == start + concat(field_parts(xs).take(i as int)),
                        start == old(b)@ + head(tag, JceType::StructBegin),
                        enc_error(self@) == first_error(field_errors(xs), i as nat),
                        forall|j: int| 0 <= j < xs.len() ==> ordered(#[trigger] xs[j].1),
                    decreases x@.len() - i,
                {
                    proof {
                        assert(decreases_to!(self => x));
                        assert(decreases_to!(x => x[i as int]));
                        assert(xs[i as int].0 == x@[i as int].0);
                        assert(repeats_tag(xs, i as int) == tags@.contains(x@[i as int].0));
                    }
                    match tags.field_tag(x[i].0) {
                        Ok(()) => {},
                        Err(e) => return Err(e),
                    }
                    match x[i].1.encode(b, x[i].0) {
                        Ok(()) => {},
                        Err(e) => return Err(e),
                    }
                    proof {
                        assert(field_parts(xs).take(i + 1).drop_last() =~= field_parts(xs).take(
                            i as int,
                        ));
                    }
                    i = i + 1;
                }
                b.struct_end();
                proof {
                    assert(field_parts(xs).take(i as int) =~= field_parts(xs));
                }
                Ok(())
            },
        }
    }
}

/// `acc` with the entry `(k, v)` put in its place by key; where a key equal to `k` is
/// already there, its value becomes `v`.
pub open spec fn map_insert(acc: Seq<(ValueView, ValueView)>, k: ValueView, v: ValueView) -> Seq<
    (ValueView, ValueView),
>
    decreases acc.len(),
{
    if acc.len() == 0 {
        seq![(k, v)]
    } else if value_cmp(acc[0].0, k) == Ordering::Less {
        seq![acc[0]] + map_insert(acc.drop_first(), k, v)
    } else if value_cmp(acc[0].0, k) == Ordering::Equal {
        seq![(acc[0].0, v)] + acc.drop_first()
    } else {
        seq![(k, v)] + acc
    }
}

/// `acc` with the field `(t, v)` put in its place by tag; where the tag is already there,
/// its value becomes `v`.
pub open spec fn field_insert(acc: Seq<(u8, ValueView)>, t: u8, v: ValueView) -> Seq<
    (u8, ValueView),
>
    decreases acc.len(),
{
    if acc.len() == 0 {
        seq![(t, v)]
    } else if acc[0].0 < t {
        seq![acc[0]] + field_insert(acc.drop_first(), t, v)
    } else if acc[0].0 == t {
        seq![(t, v)] + acc.drop_first()
    } else {
        seq![(t, v)] + acc
    }
}

/// Whether a field of `acc` has tag `t`.
pub open spec fn has_tag(acc: Seq<(u8, ValueView)>, t: u8) -> bool {
    exists|j: int| 0 <= j < acc.len() && acc[j].0 == t
}

/// The value at the start of `s`, whatever its type: its tag, its view and what follows.
/// Integers of every width read as `Int`, `Zero` as `Zero`; a struct's fields are held
/// by tag, a map's entries by key.
pub open spec fn parse_value(s: Seq<u8>) -> Result<(u8, ValueView, Seq<u8>)>
    decreases s.len(), 0int, 0int,
{
    match parse_head(s) {
        Err(e) => Err(e),
        Ok((tag, t, h)) => if t == JceType::Zero {
            Ok((tag, ValueView::Zero, s.skip(h as int)))
        } else if is_int_type(t) {
            match parse_int(s, width(t)) {
                Err(e) => Err(e),
                Ok((v, k)) => Ok((tag, ValueView::Int(v), s.skip(k as int))),
            }
        } else if t == JceType::F32 {
            match parse_f32(s) {
                Err(e) => Err(e),
                Ok((v, k)) => Ok((tag, ValueView::Float(v), s.skip(k as int))),
            }
        } else if t == JceType::F64 {
            match parse_f64(s) {
                Err(e) => Err(e),
                Ok((v, k)) => Ok((tag, ValueView::Double(v), s.skip(k as int))),
            }
        } else if t == JceType::String1 || t == JceType::String4 {
            match parse_str(s, t == JceType::String1, t == JceType::String4) {
                Err(e) => Err(e),
                Ok((v, k)) => Ok((tag, ValueView::Str(v), s.skip(k as int))),
            }
        } else if t == JceType::Bytes {
            match parse_bytes(s) {
                Err(e) => Err(e),
                Ok((v, k)) => Ok((tag, ValueView::Bytes(v), s.skip(k as int))),
            }
        } else if t == JceType::List {
            match parse_len(s, t) {
                Err(e) => Err(e),
                Ok((n, k)) => if 0 < k <= s.len() {
                    match parse_items(s.skip(k as int), n, Seq::empty()) {
                        Err(e) => Err(e),
                        Ok((xs, rest)) => Ok((tag, ValueView::List(xs), rest)),
                    }
                } else {
                    Err(Error::NotEnoughtBytes)
                },
            }
        } else if t == JceType::Mapping {
            match parse_len(s, t) {
                Err(e) => Err(e),
                Ok((n, k)) => if 0 < k <= s.len() {
                    match parse_entries(s.skip(k as int), n, Seq::empty()) {
                        Err(e) => Err(e),
                        Ok((xs, rest)) => Ok((tag, ValueView::Mapping(xs), rest)),
                    }
                } else {
                    Err(Error::NotEnoughtBytes)
                },
            }
        } else if t == JceType::StructBegin {
            if 0 < h <= s.len() {
                match parse_fields(s.skip(h as int), Seq::empty()) {
                    Err(e) => Err(e),
                    Ok((xs, rest)) => Ok((tag, ValueView::Object(xs), rest)),
                }
            } else {
                Err(Error::NotEnoughtBytes)
            }
        } else {
            Err(Error::WrongType)
        },
    }
}

/// `n` values at the start of `s`, appended to `acc`, and what follows.
pub open spec fn parse_items(s: Seq<u8>, n: nat, acc: Seq<ValueView>) -> Result<(Seq<ValueView>, Seq<u8>)>
    decreases s.len(), 1int, n,
{
    if n == 0 {
        Ok((acc, s))
    } else {
        match parse_value(s) {
            Err(e) => Err(e),
            Ok((_tag, v, rest)) => if rest.len() <= s.len() {
                parse_items(rest, (n - 1) as nat, acc.push(v))
            } else {
                Err(Error::NotEnoughtBytes)
            },
        }
    }
}

/// `n` map entries (a key, then a value) at the start of `s`, put into `acc`, and what
/// follows.
pub open spec fn parse_entries(s: Seq<u8>, n: nat, acc: Seq<(ValueView, ValueView)>) -> Result<(Seq<(ValueView, ValueView)>, Seq<u8>)>
    decreases s.len(), 1int, n,
{
    if n == 0 {
        Ok((acc, s))
    } else {
        match parse_value(s) {
            Err(e) => Err(e),
            Ok((_t1, k, r1)) => if r1.len() < s.len() {
                match parse_value(r1) {
                    Err(e) => Err(e),
                    Ok((_t2, v, r2)) => if r2.len() <= s.len() {
                        parse_entries(r2, (n - 1) as nat, map_insert(acc, k, v))
                    } else {
                        Err(Error::NotEnoughtBytes)
                    },
                }
            } else {
                Err(Error::NotEnoughtBytes)
            },
        }
    }
}

/// The fields of a struct at the start of `s` up to its terminator, put into `acc`, and
/// what follows the terminator. A tag met twice is `DuplicateFieldTag`.
pub open spec fn parse_fields(s: Seq<u8>, acc: Seq<(u8, ValueView)>) -> Result<(Seq<(u8, ValueView)>, Seq<u8>)>
    decreases s.len(), 1int, 0int,
{
    match parse_head(s) {
        Err(e) => Err(e),
        Ok((tag, t, h)) => if t == JceType::StructEnd {
            Ok((acc, s.skip(h as int)))
        } else if has_tag(acc, tag) {
            Err(Error::DuplicateFieldTag)
        } else {
            match parse_value(s) {
                Err(e) => Err(e),
                Ok((_t, v, rest)) => if rest.len() < s.len() {
                    parse_fields(rest, field_insert(acc, tag, v))
                } else {
                    Err(Error::NotEnoughtBytes)
                },
            }
        },
    }
}

/// A whole buffer holding one value and nothing after it.
pub open spec fn decode_spec(s: Seq<u8>) -> Result<ValueView> {
    match parse_value(s) {
        Err(e) => Err(e),
        Ok((_tag, v, rest)) => if rest.len() == 0 {
            Ok(v)
        } else {
            Err(Error::TrailingBytes)
        },
    }
}

/// `map_insert` as a position: the first entry whose key is not below `k` is replaced (an
/// equal key) or preceded (a greater key) by the new entry.
pub(crate) proof fn lemma_map_insert_at(acc: Seq<(ValueView, ValueView)>, k: ValueView, v: ValueView, i: int)
    requires
        0 <= i <= acc.len(),
        forall|j: int| 0 <= j < i ==> value_cmp(#[trigger] acc[j].0, k) == Ordering::Less,
        i == acc.len() || value_cmp(acc[i].0, k) != Ordering::Less,
    ensures
        map_insert(acc, k, v) == if i == acc.len() {
            acc.push((k, v))
        } else if value_cmp(acc[i].0, k) == Ordering::Equal {
            acc.update(i, (acc[i].0, v))
        } else {
            acc.insert(i, (k, v))
        },
    decreases i,
{
    if i == 0 {
        if acc.len() == 0 {
            assert(seq![(k, v)] =~= acc.push((k, v)));
        } else if value_cmp(acc[0].0, k) == Ordering::Equal {
            assert(seq![(acc[0].0, v)] + acc.drop_first() =~= acc.update(0, (acc[0].0, v)));
        } else {
            assert(seq![(k, v)] + acc =~= acc.insert(0, (k, v)));
        }
    } else {
        let d = acc.drop_first();
        assert forall|j: int| 0 <= j < i - 1 implies value_cmp(#[trigger] d[j].0, k)
            == Ordering::Less by {
            assert(d[j] == acc[j + 1]);
        }
        lemma_map_insert_at(d, k, v, i - 1);
        if i == acc.len() {
            assert(seq![acc[0]] + d.push((k, v)) =~= acc.push((k, v)));
        } else if value_cmp(acc[i].0, k) == Ordering::Equal {
            assert(seq![acc[0]] + d.update(i - 1, (d[i - 1].0, v)) =~= acc.update(
                i,
                (acc[i].0, v),
            ));
        } else {
            assert(seq![acc[0]] + d.insert(i - 1, (k, v)) =~= acc.insert(i, (k, v)));
        }
    }
}

/// `field_insert` as a position, as for `map_insert`.
pub(crate) proof fn lemma_field_insert_at(acc: Seq<(u8, ValueView)>, t: u8, v: ValueView, i: int)
    requires
        0 <= i <= acc.len(),
        forall|j: int| 0 <= j < i ==> (#[trigger] acc[j]).0 < t,
        i == acc.len() || acc[i].0 >= t,
    ensures
        field_insert(acc, t, v) == if i == acc.len() {
            acc.push((t, v))
        } else if acc[i].0 == t {
            acc.update(i, (t, v))
        } else {
            acc.insert(i, (t, v))
        },
    decreases i,
{
    if i == 0 {
        if acc.len() == 0 {
            assert(seq![(t, v)] =~= acc.push((t, v)));
        } else if acc[0].0 == t {
            assert(seq![(t, v)] + acc.drop_first() =~= acc.update(0, (t, v)));
        } else {
            assert(seq![(t, v)] + acc =~= acc.insert(0, (t, v)));
        }
    } else {
        let d = acc.drop_first();
        assert forall|j: int| 0 <= j < i - 1 implies (#[trigger] d[j]).0 < t by {
            assert(d[j] == acc[j + 1]);
        }
        lemma_field_insert_at(d, t, v, i - 1);
        if i == acc.len() {
            assert(seq![acc[0]] + d.push((t, v)) =~= acc.push((t, v)));
        } else if acc[i].0 == t {
            assert(seq![acc[0]] + d.update(i - 1, (t, v)) =~= acc.update(i, (t, v)));
        } else {
            assert(seq![acc[0]] + d.insert(i - 1, (t, v)) =~= acc.insert(i, (t, v)));
        }
    }
}

/// Puts the entry `(k, v)` into entries held in ascending order of key.
pub fn insert_entry(acc: &mut Vec<(Value, Value)>, k: Value, v: Value)
    ensures
        entries_view(*final(acc)) == map_insert(entries_view(*old(acc)), k@, v@),
{
    let ghost a = entries_view(*acc);
    let mut i: usize = 0;
    let mut found: bool = false;
    let mut ord = Ordering::Less;
    while !found && i < acc.len()
        invariant
            i <= acc@.len(),
            *acc == *old(acc),
            a == entries_view(*acc),
            a.len() == acc@.len(),
            forall|j: int| 0 <= j < i ==> value_cmp(#[trigger] a[j].0, k@) == Ordering::Less,
            found ==> i < acc@.len() && ord == value_cmp(a[i as int].0, k@) && ord
                != Ordering::Less,
        decreases acc@.len() - i, if found {
            0int
        } else {
            1int
        },
    {
        let c = acc[i].0.cmp(&k);
        match c {
            Ordering::Less => {
                i = i + 1;
            },
            _ => {
                found = true;
                ord = c;
            },
        }
    }
    proof {
        lemma_map_insert_at(a, k@, v@, i as int);
    }
    let is_equal = match ord {
        Ordering::Equal => found,
        _ => false,
    };
    if is_equal {
        let (ok, _ov) = acc.remove(i);
        acc.insert(i, (ok, v));
        assert(entries_view(*acc) =~= a.update(i as int, (a[i as int].0, v@)));
    } else {
        acc.insert(i, (k, v));
        proof {
            if i == a.len() {
                assert(entries_view(*acc) =~= a.push((k@, v@)));
            } else {
                assert(entries_view(*acc) =~= a.insert(i as int, (k@, v@)));
            }
        }
    }
}

/// Puts the field `(t, v)` into fields held in ascending order of tag.
pub fn insert_field(acc: &mut Vec<(u8, Value)>, t: u8, v: Value)
    ensures
        fields_view(*final(acc)) == field_insert(fields_view(*old(acc)), t, v@),
{
    let ghost a = fields_view(*acc);
    let mut i: usize = 0;
    while i < acc.len() && acc[i].0 < t
        invariant
            i <= acc@.len(),
            *acc == *old(acc),
            a == fields_view(*acc),
            a.len() == acc@.len(),
            forall|j: int| 0 <= j < i ==> (#[trigger] a[j]).0 < t,
        decreases acc@.len() - i,
    {
        i = i + 1;
    }
    proof {
        lemma_field_insert_at(a, t, v@, i as int);
    }
    if i < acc.len() && acc[i].0 == t {
        let _old = acc.remove(i);
        acc.insert(i, (t, v));
        assert(fields_view(*acc) =~= a.update(i as int, (t, v@)));
    } else {
        acc.insert(i, (t, v));
        proof {
            if i == a.len() {
                assert(fields_view(*acc) =~= a.push((t, v@)));
            } else {
                assert(fields_view(*acc) =~= a.insert(i as int, (t, v@)));
            }
        }
    }
}

/// Whether a field of `acc` has tag `t`.
fn find_tag(acc: &Vec<(u8, Value)>, t: u8) -> (r: bool)
    ensures
        r == has_tag(fields_view(*acc), t),
{
    let ghost a = fields_view(*acc);
    let mut i: usize = 0;
    while i < acc.len()
        invariant
            i <= acc@.len(),
            a == fields_view(*acc),
            a.len() == acc@.len(),
            forall|j: int| 0 <= j < i ==> (#[trigger] a[j]).0 != t,
        decreases acc@.len() - i,
    {
        if acc[i].0 == t {
            assert(a[i as int].0 == t);
            return true;
        }
        i = i + 1;
    }
    false
}

impl Value {
    /// Reads one value of any type from `p`. Its maps and structs come out ordered.
    pub fn decode(p: &mut JceParser) -> (r: Result<Value>)
        ensures
            match parse_value(old(p)@) {
                Ok((_tag, v, rest)) => r matches Ok(x) && x@ == v && final(p)@ == rest,
                Err(e) => r == Err::<Value, Error>(e),
            },
            r is Ok ==> final(p)@.len() < old(p)@.len() && ordered(r->Ok_0@),
        decreases old(p)@.len(),
    {
        let ghost s = p@;
        proof {
            if parse_value(s) is Ok {
                lemma_decoded_ordered(s);
            }
        }
        let (tag, tp) = match p.pick_head() {
            Ok(h) => h,
            Err(e) => return Err(e),
        };
        match tp {
            JceType::Zero => match p.zero() {
                Ok(()) => Ok(Value::Zero),
                Err(e) => Err(e),
            },
            JceType::I8 => match p.i8() {
                Ok(x) => Ok(Value::Int(x as i64)),
                Err(e) => Err(e),
            },
            JceType::I16 => match p.i16() {
                Ok(x) => Ok(Value::Int(x as i64)),
                Err(e) => Err(e),
            },
            JceType::I32 => match p.i32() {
                Ok(x) => Ok(Value::Int(x as i64)),
                Err(e) => Err(e),
            },
            JceType::I64 => match p.i64() {
                Ok(x) => Ok(Value::Int(x)),
                Err(e) => Err(e),
            },
            JceType::F32 => match p.f32_bits() {
                Ok(x) => Ok(Value::Float(x)),
                Err(e) => Err(e),
            },
            JceType::F64 => match p.f64_bits() {
                Ok(x) => Ok(Value::Double(x)),
                Err(e) => Err(e),
            },
            JceType::String1 => match p.str_small() {
                Ok(x) => Ok(Value::String(x.to_owned())),
                Err(e) => Err(e),
            },
            JceType::String4 => match p.str_big() {
                Ok(x) => Ok(Value::String(x.to_owned())),
                Err(e) => Err(e),
            },
            JceType::Bytes => match p.bytes() {
                Ok(x) => Ok(Value::Bytes(vstd::slice::slice_to_vec(x))),
                Err(e) => Err(e),
            },
            JceType::List => {
                let n = match p.list() {
                    Ok(n) => n,
                    Err(e) => return Err(e),
                };
                let ghost s1 = p@;
                let mut items: Vec<Value> = Vec::new();
                let mut i: usize = 0;
                proof {
                    assert(list_view(items) =~= Seq::empty());
                }
                while i < n
                    invariant
                        i <= n,
                        s == old(p)@,
                        p@.len() <= s1.len() < s.len(),
                        parse_value(s) == (match parse_items(s1, n as nat, Seq::empty()) {
                            Err(e) => Err(e),
                            Ok((xs, rest)) => Ok((tag, ValueView::List(xs), rest)),
                        }),
                        parse_items(s1, n as nat, Seq::empty()) == parse_items(
                            p@,
                            (n - i) as nat,
                            list_view(items),
                        ),
                    decreases n - i,
                {
                    let x = match Value::decode(p) {
                        Ok(x) => x,
                        Err(e) => return Err(e),
                    };
                    let ghost before = list_view(items);
                    items.push(x);
                    proof {
                        assert(list_view(items) =~= before.push(x@));
                    }
                    i = i + 1;
                }
                Ok(Value::List(items))
            },
            JceType::Mapping => {
                let n = match p.map() {
                    Ok(n) => n,
                    Err(e) => return Err(e),
                };
                let ghost s1 = p@;
                let mut entries: Vec<(Value, Value)> = Vec::new();
                let mut i: usize = 0;
                proof {
                    assert(entries_view(entries) =~= Seq::empty());
                }
                while i < n
                    invariant
                        i <= n,
                        s == old(p)@,
                        p@.len() <= s1.len() < s.len(),
                        parse_value(s) == (match parse_entries(s1, n as nat, Seq::empty()) {
                            Err(e) => Err(e),
                            Ok((xs, rest)) => Ok((tag, ValueView::Mapping(xs), rest)),
                        }),
                        parse_entries(s1, n as nat, Seq::empty()) == parse_entries(
                            p@,
                            (n - i) as nat,
                            entries_view(entries),
                        ),
                    decreases n - i,
                {
                    let k = match Value::decode(p) {
                        Ok(x) => x,
                        Err(e) => return Err(e),
                    };
                    let v = match Value::decode(p) {
                        Ok(x) => x,
                        Err(e) => return Err(e),
                    };
                    insert_entry(&mut entries, k, v);
                    i = i + 1;
                }
                Ok(Value::Mapping(entries))
            },
            JceType::StructBegin => {
                match p.struct_begin() {
                    Ok(()) => {},
                    Err(e) => return Err(e),
                }
                let ghost s1 = p@;
                let mut fields: Vec<(u8, Value)> = Vec::new();
                proof {
                    assert(fields_view(fields) =~= Seq::empty());
                }
                loop
                    invariant
                        s == old(p)@,
                        p@.len() <= s1.len() < s.len(),
                        parse_value(s) == (match parse_fields(s1, Seq::empty()) {
                            Err(e) => Err(e),
                            Ok((xs, rest)) => Ok((tag, ValueView::Object(xs), rest)),
                        }),
                        parse_fields(s1, Seq::empty()) == parse_fields(p@, fields_view(fields)),
                        parse_value(s) is Ok ==> ordered(parse_value(s)->Ok_0.1),
                    decreases p@.len(),
                {
                    let (ftag, ft) = match p.pick_head() {
                        Ok(h) => h,
                        Err(e) => return Err(e),
                    };
                    if ft == JceType::StructEnd {
                        return match p.struct_end() {
                            Ok(()) => Ok(Value::Object(fields)),
                            Err(e) => Err(e),
                        };
                    }
                    if find_tag(&fields, ftag) {
                        return Err(Error::DuplicateFieldTag);
                    }
                    let x = match Value::decode(p) {
                        Ok(x) => x,
                        Err(e) => return Err(e),
                    };
                    insert_field(&mut fields, ftag, x);
                }
            },
            JceType::StructEnd => Err(Error::WrongType),
        }
    }

    /// Reads a whole buffer that holds exactly one value: `TrailingBytes` if bytes remain
    /// after it.
    pub fn from_bytes(bytes: &[u8]) -> (r: Result<Value>)
        ensures
            match decode_spec(bytes@) {
                Ok(v) => r matches Ok(x) && x@ == v,
                Err(e) => r == Err::<Value, Error>(e),
            },
            r is Ok ==> ordered(r->Ok_0@),
    {
        let mut p = JceParser::from_bytes(bytes);
        let v = match Value::decode(&mut p) {
            Ok(v) => v,
            Err(e) => return Err(e),
        };
        if p.done() {
            Ok(v)
        } else {
            Err(Error::TrailingBytes)
        }
    }

    /// The bytes of this value under tag 0.
    pub fn to_bytes(&self) -> (r: Result<Vec<u8>>)
        requires
            ordered(self@),
        ensures
            match enc_error(self@) {
                None => r matches Ok(b) && b@ == enc_value(self@, 0),
                Some(e) => r == Err::<Vec<u8>, Error>(e),
            },
    {
        self.to_bytes_with_tag(0)
    }

    /// The bytes of this value under `tag`.
    pub fn to_bytes_with_tag(&self, tag: u8) -> (r: Result<Vec<u8>>)
        requires
            ordered(self@),
        ensures
            match enc_error(self@) {
                None => r matches Ok(b) && b@ == enc_value(self@, tag),
                Some(e) => r == Err::<Vec<u8>, Error>(e),
            },
    {
        let mut b = Jcebuilder::new();
        match self.encode(&mut b, tag) {
            Ok(()) => {},
            Err(e) => return Err(e),
        }
        let r = b.done();
        assert(r@ =~= enc_value(self@, tag));
        Ok(r)
    }
}

impl Value {
    /// Whether two values are the same: same kind, same numbers, bit patterns, bytes,
    /// elements, entries and fields.
    fn same(&self, other: &Value) -> (r: bool)
        ensures
            r == (self@ == other@),
        decreases self,
    {
        match self {
            Value::Zero => match other {
                Value::Zero => true,
                _ => false,
            },
            Value::Int(x) => match other {
                Value::Int(y) => *x == *y,
                _ => false,
            },
            Value::Float(x) => match other {
                Value::Float(y) => *x == *y,
                _ => false,
            },
            Value::Double(x) => match other {
                Value::Double(y) => *x == *y,
                _ => false,
            },
            Value::String(x) => match other {
                Value::String(y) => {
                    let r = cmp_byte_slices(x.as_str().as_bytes(), y.as_str().as_bytes());
                    proof {
                        lemma_bytes_equal(encode_utf8(x@), encode_utf8(y@), 0);
                        if x@ == y@ {
                            lemma_bytes_refl(encode_utf8(x@), 0);
                        }
                        vstd::utf8::encode_utf8_decode_utf8(x@);
                        vstd::utf8::encode_utf8_decode_utf8(y@);
                    }
                    match r {
                        Ordering::Equal => true,
                        _ => false,
                    }
                },
                _ => false,
            },
            Value::Bytes(x) => match other {
                Value::Bytes(y) => {
                    let r = cmp_byte_slices(x.as_slice(), y.as_slice());
                    proof {
                        lemma_bytes_equal(x@, y@, 0);
                        if x@ == y@ {
                            lemma_bytes_refl(x@, 0);
                        }
                        if r == Ordering::Equal {
                            assert(x@ =~= y@);
                        }
                    }
                    match r {
                        Ordering::Equal => true,
                        _ => false,
                    }
                },
                _ => false,
            },
            Value::List(x) => match other {
                Value::List(y) => {
                    let ghost xs = list_view(*x);
                    let ghost ys = list_view(*y);
                    assert(xs.len() == x@.len() && ys.len() == y@.len());
                    if x.len() != y.len() {
                        assert(xs.len() != ys.len());
                        return false;
                    }
                    let mut i: usize = 0;
                    while i < x.len()
                        invariant
                            *self == Value::List(*x),
                            *other == Value::List(*y),
                            self@ == ValueView::List(xs),
                            other@ == ValueView::List(ys),
                            xs.len() == x@.len(),
                            ys.len() == y@.len(),
                            x@.len() == y@.len(),
                            i <= x@.len(),
                            xs == list_view(*x),
                            ys == list_view(*y),
                            forall|j: int| 0 <= j < i ==> xs[j] == ys[j],
                        decreases x@.len() - i,
                    {
                        proof {
                            assert(decreases_to!(self => x));
                            assert(decreases_to!(x => x[i as int]));
                        }
                        if !x[i].same(&y[i]) {
                            assert(xs[i as int] != ys[i as int]);
                            return false;
                        }
                        i = i + 1;
                    }
                    assert(xs =~= ys);
                    true
                },
                _ => false,
            },
            Value::Mapping(x) => match other {
                Value::Mapping(y) => {
                    let ghost xs = entries_view(*x);
                    let ghost ys = entries_view(*y);
                    assert(xs.len() == x@.len() && ys.len() == y@.len());
                    if x.len() != y.len() {
                        assert(xs.len() != ys.len());
                        return false;
                    }
                    let mut i: usize = 0;
                    while i < x.len()
                        invariant
                            *self == Value::Mapping(*x),
                            *other == Value::Mapping(*y),
                            self@ == ValueView::Mapping(xs),
                            other@ == ValueView::Mapping(ys),
                            xs.len() == x@.len(),
                            ys.len() == y@.len(),
                            x@.len() == y@.len(),
                            i <= x@.len(),
                            xs == entries_view(*x),
                            ys == entries_view(*y),
                            forall|j: int| 0 <= j < i ==> xs[j] == ys[j],
                        decreases x@.len() - i,
                    {
                        proof {
                            assert(decreases_to!(self => x));
                            assert(decreases_to!(x => x[i as int]));
                        }
                        if !x[i].0.same(&y[i].0) || !x[i].1.same(&y[i].1) {
                            assert(xs[i as int] != ys[i as int]);
                            return false;
                        }
                        i = i + 1;
                    }
                    assert(xs =~= ys);
                    true
                },
                _ => false,
            },
            Value::Object(x) => match other {
                Value::Object(y) => {
                    let ghost xs = fields_view(*x);
                    let ghost ys = fields_view(*y);
                    assert(xs.len() == x@.len() && ys.len() == y@.len());
                    if x.len() != y.len() {
                        assert(xs.len() != ys.len());
                        return false;
                    }
                    let mut i: usize = 0;
                    while i < x.len()
                        invariant
                            *self == Value::Object(*x),
                            *other == Value::Object(*y),
                            self@ == ValueView::Object(xs),
                            other@ == ValueView::Object(ys),
                            xs.len() == x@.len(),
                            ys.len() == y@.len(),
                            x@.len() == y@.len(),
                            i <= x@.len(),
                            xs == fields_view(*x),
                            ys == fields_view(*y),
                            forall|j: int| 0 <= j < i ==> xs[j] == ys[j],
                        decreases x@.len() - i,
                    {
                        proof {
                            assert(decreases_to!(self => x));
                            assert(decreases_to!(x => x[i as int]));
                        }
                        if x[i].0 != y[i].0 || !x[i].1.same(&y[i].1) {
                            assert(xs[i as int] != ys[i as int]);
                            return false;
                        }
                        i = i + 1;
                    }
                    assert(xs =~= ys);
                    true
                },
                _ => false,
            },
        }
    }
}

impl PartialEq for Value {
    fn eq(&self, other: &Value) -> (r: bool) {
        self.same(other)
    }
}

impl vstd::std_specs::cmp::PartialEqSpecImpl for Value {
    open spec fn obeys_eq_spec() -> bool {
        true
    }

    open spec fn eq_spec(&self, other: &Value) -> bool {
        self@ == other@
    }
}

/// Byte strings that agree before `i` and compare equal from `i` on are the same.
proof fn lemma_bytes_equal(a: Seq<u8>, b: Seq<u8>, i: nat)
    requires
        i <= a.len(),
        i <= b.len(),
        forall|j: int| 0 <= j < i ==> a[j] == b[j],
    ensures
        cmp_bytes(a, b, i) == Ordering::Equal ==> a == b,
    decreases a.len() - i,
{
    if i < a.len() && i < b.len() && a[i as int] == b[i as int] {
        lemma_bytes_equal(a, b, i + 1);
    } else if i >= a.len() && i >= b.len() {
        assert(a =~= b);
    }
}

/// A byte string compares equal to itself.
proof fn lemma_bytes_refl(a: Seq<u8>, i: nat)
    ensures
        cmp_bytes(a, a, i) == Ordering::Equal,
    decreases a.len() - i,
{
    if i < a.len() {
        lemma_bytes_refl(a, i + 1);
    }
}

impl Value {
    /// The payload of a `Int`, if this is one.
    pub fn int_value(self) -> (r: Option<i64>)
        ensures
            r == (match self {
                Value::Int(v) => Some(v),
                _ => None,
            }),
    {
        match self {
            Value::Int(v) => Some(v),
            _ => None,
        }
    }

    /// A reference to the payload of a `Int`, if this is one.
    pub fn int_ref(&self) -> (r: Option<&i64>)
        ensures
            r == (match *self {
                Value::Int(v) => Some(&v),
                _ => None,
            }),
    {
        match self {
            Value::Int(v) => Some(v),
            _ => None,
        }
    }

    /// A mutable reference to the payload of a `Int`, if this is one.
    pub fn int_mut(&mut self) -> (r: Option<&mut i64>)
        ensures
            match *old(self) {
                Value::Int(v) => r matches Some(m) && *m == v && *final(self) == Value::Int(
                    *final(m),
                ),
                _ => r is None && *final(self) == *old(self),
            },
    {
        match self {
            Value::Int(v) => Some(v),
            _ => None,
        }
    }

    /// The payload of a `Float`, if this is one.
    pub fn float(self) -> (r: Option<u32>)
        ensures
            r == (match self {
                Value::Float(v) => Some(v),
                _ => None,
            }),
    {
        match self {
            Value::Float(v) => Some(v),
            _ => None,
        }
    }

    /// A reference to the payload of a `Float`, if this is one.
    pub fn float_ref(&self) -> (r: Option<&u32>)
        ensures
            r == (match *self {
                Value::Float(v) => Some(&v),
                _ => None,
            }),
    {
        match self {
            Value::Float(v) => Some(v),
            _ => None,
        }
    }

    /// A mutable reference to the payload of a `Float`, if this is one.
    pub fn float_mut(&mut self) -> (r: Option<&mut u32>)
        ensures
            match *old(self) {
                Value::Float(v) => r matches Some(m) && *m == v && *final(self) == Value::Float(
                    *final(m),
                ),
                _ => r is None && *final(self) == *old(self),
            },
    {
        match self {
            Value::Float(v) => Some(v),
            _ => None,
        }
    }

    /// The payload of a `Double`, if this is one.
    pub fn double(self) -> (r: Option<u64>)
        ensures
            r == (match self {
                Value::Double(v) => Some(v),
                _ => None,
            }),
    {
        match self {
            Value::Double(v) => Some(v),
            _ => None,
        }
    }

    /// A reference to the payload of a `Double`, if this is one.
    pub fn double_ref(&self) -> (r: Option<&u64>)
        ensures
            r == (match *self {
                Value::Double(v) => Some(&v),
                _ => None,
            }),
    {
        match self {
            Value::Double(v) => Some(v),
            _ => None,
        }
    }

    /// A mutable reference to the payload of a `Double`, if this is one.
    pub fn double_mut(&mut self) -> (r: Option<&mut u64>)
        ensures
            match *old(self) {
                Value::Double(v) => r matches Some(m) && *m == v && *final(self) == Value::Double(
                    *final(m),
                ),
                _ => r is None && *final(self) == *old(self),
            },
    {
        match self {
            Value::Double(v) => Some(v),
            _ => None,
        }
    }

    /// The payload of a `String`, if this is one.
    pub fn string(self) -> (r: Option<String>)
        ensures
            r == (match self {
                Value::String(v) => Some(v),
                _ => None,
            }),
    {
        match self {
            Value::String(v) => Some(v),
            _ => None,
        }
    }

    /// A reference to the payload of a `String`, if this is one.
    pub fn string_ref(&self) -> (r: Option<&String>)
        ensures
            r == (match *self {
                Value::String(v) => Some(&v),
                _ => None,
            }),
    {
        match self {
            Value::String(v) => Some(v),
            _ => None,
        }
    }

    /// A mutable reference to the payload of a `String`, if this is one.
    pub fn string_mut(&mut self) -> (r: Option<&mut String>)
        ensures
            match *old(self) {
                Value::String(v) => r matches Some(m) && *m == v && *final(self) == Value::String(
                    *final(m),
                ),
                _ => r is None && *final(self) == *old(self),
            },
    {
        match self {
            Value::String(v) => Some(v),
            _ => None,
        }
    }

    /// The payload of a `Bytes`, if this is one.
    pub fn bytes(self) -> (r: Option<Vec<u8>>)
        ensures
            r == (match self {
                Value::Bytes(v) => Some(v),
                _ => None,
            }),
    {
        match self {
            Value::Bytes(v) => Some(v),
            _ => None,
        }
    }

    /// A reference to the payload of a `Bytes`, if this is one.
    pub fn bytes_ref(&self) -> (r: Option<&Vec<u8>>)
        ensures
            r == (match *self {
                Value::Bytes(v) => Some(&v),
                _ => None,
            }),
    {
        match self {
            Value::Bytes(v) => Some(v),
            _ => None,
        }
    }

    /// A mutable reference to the payload of a `Bytes`, if this is one.
    pub fn bytes_mut(&mut self) -> (r: Option<&mut Vec<u8>>)
        ensures
            match *old(self) {
                Value::Bytes(v) => r matches Some(m) && *m == v && *final(self) == Value::Bytes(
                    *final(m),
                ),
                _ => r is None && *final(self) == *old(self),
            },
    {
        match self {
            Value::Bytes(v) => Some(v),
            _ => None,
        }
    }

    /// The payload of a `List`, if this is one.
    pub fn list(self) -> (r: Option<Vec<Value>>)
        ensures
            r == (match self {
                Value::List(v) => Some(v),
                _ => None,
            }),
    {
        match self {
            Value::List(v) => Some(v),
            _ => None,
        }
    }

    /// A reference to the payload of a `List`, if this is one.
    pub fn list_ref(&self) -> (r: Option<&Vec<Value>>)
        ensures
            r == (match *self {
                Value::List(v) => Some(&v),
                _ => None,
            }),
    {
        match self {
            Value::List(v) => Some(v),
            _ => None,
        }
    }

    /// A mutable reference to the payload of a `List`, if this is one.
    pub fn list_mut(&mut self) -> (r: Option<&mut Vec<Value>>)
        ensures
            match *old(self) {
                Value::List(v) => r matches Some(m) && *m == v && *final(self) == Value::List(
                    *final(m),
                ),
                _ => r is None && *final(self) == *old(self),
            },
    {
        match self {
            Value::List(v) => Some(v),
            _ => None,
        }
    }

    /// The payload of a `Mapping`, if this is one.
    pub fn map(self) -> (r: Option<Vec<(Value, Value)>>)
        ensures
            r == (match self {
                Value::Mapping(v) => Some(v),
                _ => None,
            }),
    {
        match self {
            Value::Mapping(v) => Some(v),
            _ => None,
        }
    }

    /// A reference to the payload of a `Mapping`, if this is one.
    pub fn map_ref(&self) -> (r: Option<&Vec<(Value, Value)>>)
        ensures
            r == (match *self {
                Value::Mapping(v) => Some(&v),
                _ => None,
            }),
    {
        match self {
            Value::Mapping(v) => Some(v),
            _ => None,
        }
    }

    /// A mutable reference to the payload of a `Mapping`, if this is one.
    pub fn map_mut(&mut self) -> (r: Option<&mut Vec<(Value, Value)>>)
        ensures
            match *old(self) {
                Value::Mapping(v) => r matches Some(m) && *m == v && *final(self) == Value::Mapping(
                    *final(m),
                ),
                _ => r is None && *final(self) == *old(self),
            },
    {
        match self {
            Value::Mapping(v) => Some(v),
            _ => None,
        }
    }

    /// The payload of a `Object`, if this is one.
    pub fn obj(self) -> (r: Option<Vec<(u8, Value)>>)
        ensures
            r == (match self {
                Value::Object(v) => Some(v),
                _ => None,
            }),
    {
        match self {
            Value::Object(v) => Some(v),
            _ => None,
        }
    }

    /// A reference to the payload of a `Object`, if this is one.
    pub fn obj_ref(&self) -> (r: Option<&Vec<(u8, Value)>>)
        ensures
            r == (match *self {
                Value::Object(v) => Some(&v),
                _ => None,
            }),
    {
        match self {
            Value::Object(v) => Some(v),
            _ => None,
        }
    }

    /// A mutable reference to the payload of a `Object`, if this is one.
    pub fn obj_mut(&mut self) -> (r: Option<&mut Vec<(u8, Value)>>)
        ensures
            match *old(self) {
                Value::Object(v) => r matches Some(m) && *m == v && *final(self) == Value::Object(
                    *final(m),
                ),
                _ => r is None && *final(self) == *old(self),
            },
    {
        match self {
            Value::Object(v) => Some(v),
            _ => None,
        }
    }
}

impl From<i64> for Value {
    fn from(v: i64) -> (r: Value) {
        Value::Int(v)
    }
}

impl vstd::std_specs::convert::FromSpecImpl<i64> for Value {
    open spec fn obeys_from_spec() -> bool {
        true
    }

    open spec fn from_spec(v: i64) -> Value {
        Value::Int(v)
    }
}

impl From<&str> for Value {
    fn from(v: &str) -> (r: Value)
        ensures
            r@ == ValueView::Str(v@),
    {
        Value::String(v.to_owned())
    }
}

impl vstd::std_specs::convert::FromSpecImpl<&str> for Value {
    open spec fn obeys_from_spec() -> bool {
        false
    }

    open spec fn from_spec(v: &str) -> Value {
        vstd::pervasive::arbitrary()
    }
}

impl From<String> for Value {
    fn from(v: String) -> (r: Value) {
        Value::String(v)
    }
}

impl vstd::std_specs::convert::FromSpecImpl<String> for Value {
    open spec fn obeys_from_spec() -> bool {
        true
    }

    open spec fn from_spec(v: String) -> Value {
        Value::String(v)
    }
}

/// Compares two byte strings lexicographically.
fn cmp_byte_slices(a: &[u8], b: &[u8]) -> (r: Ordering)
    ensures
        r == cmp_bytes(a@, b@, 0),
{
    let mut i: usize = 0;
    while i < a.len() && i < b.len()
        invariant
            i <= a@.len(),
            i <= b@.len(),
            cmp_bytes(a@, b@, 0) == cmp_bytes(a@, b@, i as nat),
        decreases a@.len() - i,
    {
        if a[i] != b[i] {
            return if a[i] < b[i] {
                Ordering::Less
            } else {
                Ordering::Greater
            };
        }
        i = i + 1;
    }
    if a.len() < b.len() {
        Ordering::Less
    } else if a.len() == b.len() {
        Ordering::Equal
    } else {
        Ordering::Greater
    }
}

fn cmp_u64(a: u64, b: u64) -> (r: Ordering)
    ensures
        r == cmp_int(a as int, b as int),
{
    if a < b {
        Ordering::Less
    } else if a == b {
        Ordering::Equal
    } else {
        Ordering::Greater
    }
}

impl Value {
    /// The position of this value's kind in the order of kinds.
    fn rank_of(&self) -> (r: u8)
        ensures
            r as int == rank(self@),
    {
        match self {
            Value::Zero => 0,
            Value::Int(_) => 1,
            Value::Float(_) => 2,
            Value::Double(_) => 3,
            Value::String(_) => 4,
            Value::Bytes(_) => 5,
            Value::List(_) => 6,
            Value::Mapping(_) => 7,
            Value::Object(_) => 8,
        }
    }

    /// Compares two values in the total order of values.
    pub fn cmp(&self, other: &Value) -> (r: Ordering)
        ensures
            r == value_cmp(self@, other@),
        decreases self,
    {
        let ra = self.rank_of();
        let rb = other.rank_of();
        if ra != rb {
            return cmp_u64(ra as u64, rb as u64);
        }
        match self {
            Value::Int(x) => match other {
                Value::Int(y) => {
                    if *x < *y {
                        Ordering::Less
                    } else if *x == *y {
                        Ordering::Equal
                    } else {
                        Ordering::Greater
                    }
                },
                _ => Ordering::Equal,
            },
            Value::Float(x) => match other {
                Value::Float(y) => cmp_u64(*x as u64, *y as u64),
                _ => Ordering::Equal,
            },
            Value::Double(x) => match other {
                Value::Double(y) => cmp_u64(*x, *y),
                _ => Ordering::Equal,
            },
            Value::String(x) => match other {
                Value::String(y) => cmp_byte_slices(x.as_str().as_bytes(), y.as_str().as_bytes()),
                _ => Ordering::Equal,
            },
            Value::Bytes(x) => match other {
                Value::Bytes(y) => cmp_byte_slices(x.as_slice(), y.as_slice()),
                _ => Ordering::Equal,
            },
            Value::List(x) => match other {
                Value::List(y) => {
                    let ghost xs = list_view(*x);
                    let ghost ys = list_view(*y);
                    let mut i: usize = 0;
                    while i < x.len() && i < y.len()
                        invariant
                            *self == Value::List(*x),
                            i <= x@.len(),
                            i <= y@.len(),
                            xs.len() == x@.len(),
                            ys.len() == y@.len(),
                            forall|j: int| 0 <= j < x@.len() ==> xs[j] == x@[j]@,
                            forall|j: int| 0 <= j < y@.len() ==> ys[j] == y@[j]@,
                            value_cmp(self@, other@) == cmp_list(xs, ys, i as nat),
                        decreases x@.len() - i,
                    {
                        proof {
                            assert(decreases_to!(self => x));
                            assert(decreases_to!(x => x[i as int]));
                        }
                        let c = x[i].cmp(&y[i]);
                        match c {
                            Ordering::Equal => {},
                            _ => return c,
                        }
                        i = i + 1;
                    }
                    cmp_u64(x.len() as u64, y.len() as u64)
                },
                _ => Ordering::Equal,
            },
            Value::Mapping(x) => match other {
                Value::Mapping(y) => {
                    let ghost xs = entries_view(*x);
                    let ghost ys = entries_view(*y);
                    let mut i: usize = 0;
                    while i < x.len() && i < y.len()
                        invariant
                            *self == Value::Mapping(*x),
                            i <= x@.len(),
                            i <= y@.len(),
                            xs.len() == x@.len(),
                            ys.len() == y@.len(),
                            forall|j: int|
                                0 <= j < x@.len() ==> xs[j] == (x@[j].0@, x@[j].1@),
                            forall|j: int|
                                0 <= j < y@.len() ==> ys[j] == (y@[j].0@, y@[j].1@),
                            value_cmp(self@, other@) == cmp_entries(xs, ys, i as nat),
                        decreases x@.len() - i,
                    {
                        proof {
                            assert(decreases_to!(self => x));
                            assert(decreases_to!(x => x[i as int]));
                        }
                        let c = x[i].0.cmp(&y[i].0);
                        match c {
                            Ordering::Equal => {},
                            _ => return c,
                        }
                        let d = x[i].1.cmp(&y[i].1);
                        match d {
                            Ordering::Equal => {},
                            _ => return d,
                        }
                        i = i + 1;
                    }
                    cmp_u64(x.len() as u64, y.len() as u64)
                },
                _ => Ordering::Equal,
            },
            Value::Object(x) => match other {
                Value::Object(y) => {
                    let ghost xs = fields_view(*x);
                    let ghost ys = fields_view(*y);
                    let mut i: usize = 0;
                    while i < x.len() && i < y.len()
                        invariant
                            *self == Value::Object(*x),
                            i <= x@.len(),
                            i <= y@.len(),
                            xs.len() == x@.len(),
                            ys.len() == y@.len(),
                            forall|j: int| 0 <= j < x@.len() ==> xs[j] == (x@[j].0, x@[j].1@),
                            forall|j: int| 0 <= j < y@.len() ==> ys[j] == (y@[j].0, y@[j].1@),
                            value_cmp(self@, other@) == cmp_fields(xs, ys, i as nat),
                        decreases x@.len() - i,
                    {
                        proof {
                            assert(decreases_to!(self => x));
                            assert(decreases_to!(x => x[i as int]));
                        }
                        if x[i].0 != y[i].0 {
                            return cmp_u64(x[i].0 as u64, y[i].0 as u64);
                        }
                        let d = x[i].1.cmp(&y[i].1);
                        match d {
                            Ordering::Equal => {},
                            _ => return d,
                        }
                        i = i + 1;
                    }
                    cmp_u64(x.len() as u64, y.len() as u64)
                },
                _ => Ordering::Equal,
            },
            _ => Ordering::Equal,
        }
    }
}

} // verus!
