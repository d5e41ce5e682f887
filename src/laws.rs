//! Laws that relate encoding and decoding.
use vstd::prelude::*;

use core::cmp::Ordering;

use crate::deserializer::next_field;
use crate::error::Error;
use crate::format::{
    be, bytes_max, enc_bytes, enc_int, enc_list_begin, enc_map_begin, enc_str, fits, fixed,
    from_be, head, int_type, is_int_type, lemma_be_len, lemma_from_be_be, lemma_head,
    lemma_int_round_trip, lemma_pow256_values, lemma_zero_int, parse_bytes, parse_bytes_payload,
    parse_f32, parse_f64, parse_head, parse_int, parse_len, parse_marker, parse_str,
    parse_str_bytes, parse_type, skip_fields, skip_flat, skip_value, skip_values, string_max,
    string_payload, struct_end_bytes, width,
};
use crate::order::{keys_ordered, lemma_cmp_trans, ordered};
use crate::types::JceType;
use crate::value::{
    concat, decode_spec, enc_error, enc_value, entry_errors, entry_parts, field_errors,
    field_insert, field_parts, first_error, has_tag, lemma_field_insert_at, lemma_map_insert_at,
    list_errors, list_parts, map_insert, parse_entries, parse_fields, parse_items, parse_value,
    repeats_tag, value_cmp, ValueView,
};
use vstd::utf8::{encode_utf8, encode_utf8_decode_utf8, encode_utf8_valid_utf8};

verus! {

/// A value that the encoding represents exactly: no `Int(0)` and no empty string (both
/// written as `Zero`), every string, byte string, list and map within the format's lengths, map keys in strictly
/// ascending order and struct tags in strictly ascending order.
pub open spec fn canonical(v: ValueView) -> bool
    decreases v,
{
    match v {
        ValueView::Int(n) => n != 0 && fits(n, 8),
        ValueView::Str(cs) => 0 < encode_utf8(cs).len() <= string_max(),
        ValueView::Bytes(b) => b.len() <= bytes_max(),
        ValueView::List(xs) => xs.len() <= 0x7fff_ffff && forall|i: int|
            0 <= i < xs.len() ==> canonical(#[trigger] xs[i]),
        ValueView::Mapping(xs) => {
            &&& xs.len() <= 0x7fff_ffff
            &&& forall|i: int|
                0 <= i < xs.len() ==> canonical(#[trigger] xs[i].0) && canonical(xs[i].1)
            &&& keys_ascending(xs)
        },
        ValueView::Object(xs) => {
            &&& forall|i: int| 0 <= i < xs.len() ==> canonical(#[trigger] xs[i].1)
            &&& forall|i: int, j: int|
                0 <= i < j < xs.len() ==> (#[trigger] xs[i]).0 < (#[trigger] xs[j]).0
        },
        _ => true,
    }
}

/// Whether the keys of `xs` are in strictly ascending order.
#[verifier::opaque]
pub open spec fn keys_ascending(xs: Seq<(ValueView, ValueView)>) -> bool {
    forall|i: int, j: int|
        0 <= i < j < xs.len() ==> value_cmp(#[trigger] xs[i].0, #[trigger] xs[j].0)
            == Ordering::Less
}

/// In a map with ascending keys, each entry goes after the ones before it.
proof fn lemma_ascending_insert(xs: Seq<(ValueView, ValueView)>, i: int)
    requires
        0 <= i < xs.len(),
        keys_ascending(xs),
    ensures
        map_insert(xs.take(i), xs[i].0, xs[i].1) == xs.take(i + 1),
{
    reveal(keys_ascending);
    let acc = xs.take(i);
    assert forall|j: int| 0 <= j < i implies value_cmp(#[trigger] acc[j].0, xs[i].0)
        == Ordering::Less by {
        assert(acc[j] == xs[j]);
    }
    lemma_map_insert_at(acc, xs[i].0, xs[i].1, i);
    assert(acc.push((xs[i].0, xs[i].1)) =~= xs.take(i + 1));
}

proof fn lemma_concat_front(ps: Seq<Seq<u8>>)
    requires
        ps.len() > 0,
    ensures
        concat(ps) == ps[0] + concat(ps.drop_first()),
    decreases ps.len(),
{
    if ps.len() == 1 {
        assert(ps.drop_last() =~= Seq::<Seq<u8>>::empty());
        assert(ps.drop_first() =~= Seq::<Seq<u8>>::empty());
        assert(concat(ps) =~= ps[0] + concat(ps.drop_first()));
    } else {
        lemma_concat_front(ps.drop_last());
        assert(ps.drop_first().drop_last() =~= ps.drop_last().drop_first());
        assert(concat(ps) =~= ps[0] + concat(ps.drop_first()));
    }
}

proof fn lemma_from_be_one(x: u8)
    ensures
        from_be(seq![x]) == x,
{
    assert(seq![x].drop_last() =~= Seq::<u8>::empty());
    assert(from_be(Seq::<u8>::empty()) == 0);
}

/// What the round trip states of one value, apart from the encoding not failing.
pub open spec fn reads_back(v: ValueView, tag: u8, rest: Seq<u8>) -> bool {
    &&& parse_value(enc_value(v, tag) + rest) == Ok::<(u8, ValueView, Seq<u8>), Error>(
        (tag, v, rest),
    )
    &&& enc_value(v, tag).len() > 0
    &&& parse_head(enc_value(v, tag) + rest) is Ok
    &&& parse_head(enc_value(v, tag) + rest)->Ok_0.0 == tag
    &&& parse_head(enc_value(v, tag) + rest)->Ok_0.1 != JceType::StructEnd
}

proof fn lemma_zero(tag: u8, rest: Seq<u8>)
    ensures
        reads_back(ValueView::Zero, tag, rest),
{
    let s = enc_value(ValueView::Zero, tag) + rest;
    lemma_head(tag, JceType::Zero, rest);
    assert(s.skip(head(tag, JceType::Zero).len() as int) =~= rest);
}

proof fn lemma_int(n: int, tag: u8, rest: Seq<u8>)
    requires
        n != 0,
        fits(n, 8),
    ensures
        reads_back(ValueView::Int(n), tag, rest),
{
    lemma_pow256_values();
    let s = enc_value(ValueView::Int(n), tag) + rest;
    lemma_int_round_trip(tag, n, width(int_type(n)), rest);
    assert(s.skip(enc_int(tag, n).len() as int) =~= rest);
}

proof fn lemma_float(b: u32, tag: u8, rest: Seq<u8>)
    ensures
        reads_back(ValueView::Float(b), tag, rest),
{
    lemma_pow256_values();
    let s = enc_value(ValueView::Float(b), tag) + rest;
    let p = be(b as nat, 4);
    lemma_head(tag, JceType::F32, p + rest);
    assert(head(tag, JceType::F32) + (p + rest) =~= s);
    lemma_be_len(b as nat, 4);
    lemma_from_be_be(b as nat, 4);
    let h = head(tag, JceType::F32).len();
    assert(s.subrange(h as int, (h + 4) as int) =~= p);
    assert(s.skip((h + 4) as int) =~= rest);
}

proof fn lemma_double(b: u64, tag: u8, rest: Seq<u8>)
    ensures
        reads_back(ValueView::Double(b), tag, rest),
{
    lemma_pow256_values();
    let s = enc_value(ValueView::Double(b), tag) + rest;
    let p = be(b as nat, 8);
    lemma_head(tag, JceType::F64, p + rest);
    assert(head(tag, JceType::F64) + (p + rest) =~= s);
    lemma_be_len(b as nat, 8);
    lemma_from_be_be(b as nat, 8);
    let h = head(tag, JceType::F64).len();
    assert(s.subrange(h as int, (h + 8) as int) =~= p);
    assert(s.skip((h + 8) as int) =~= rest);
}

proof fn lemma_str_short(cs: Seq<char>, tag: u8, rest: Seq<u8>)
    requires
        0 < encode_utf8(cs).len() <= 255,
    ensures
        reads_back(ValueView::Str(cs), tag, rest),
{
    lemma_pow256_values();
    let s = enc_value(ValueView::Str(cs), tag) + rest;
    let b = encode_utf8(cs);
    encode_utf8_valid_utf8(cs);
    encode_utf8_decode_utf8(cs);
    let t = JceType::String1;
    lemma_head(tag, t, seq![b.len() as u8] + b + rest);
    assert(head(tag, t) + (seq![b.len() as u8] + b + rest) =~= s);
    let h = head(tag, t).len();
    assert(s.subrange(h as int, (h + 1) as int) =~= seq![b.len() as u8]);
    lemma_from_be_one(b.len() as u8);
    assert(fixed(s, h, 1) == b.len());
    assert(s.subrange((h + 1) as int, (h + 1 + b.len()) as int) =~= b);
    assert(string_payload(s, t, h) == Ok::<(Seq<u8>, nat), Error>((b, h + 1 + b.len())));
    assert(parse_str(s, true, false) == Ok::<(Seq<char>, nat), Error>((cs, h + 1 + b.len())));
    assert(s.skip((h + 1 + b.len()) as int) =~= rest);
}

proof fn lemma_str_long(cs: Seq<char>, tag: u8, rest: Seq<u8>)
    requires
        255 < encode_utf8(cs).len() <= string_max(),
    ensures
        reads_back(ValueView::Str(cs), tag, rest),
{
    lemma_pow256_values();
    let s = enc_value(ValueView::Str(cs), tag) + rest;
    let b = encode_utf8(cs);
    encode_utf8_valid_utf8(cs);
    encode_utf8_decode_utf8(cs);
    let t = JceType::String4;
    let n = b.len();
    assert(b.take(n as int) =~= b);
    lemma_head(tag, t, be(n, 4) + b + rest);
    assert(head(tag, t) + (be(n, 4) + b + rest) =~= s);
    let h = head(tag, t).len();
    lemma_be_len(n, 4);
    lemma_from_be_be(n, 4);
    assert(s.subrange(h as int, (h + 4) as int) =~= be(n, 4));
    assert(fixed(s, h, 4) == n);
    assert(s.subrange((h + 4) as int, (h + 4 + n) as int) =~= b);
    assert(string_payload(s, t, h) == Ok::<(Seq<u8>, nat), Error>((b, h + 4 + n)));
    assert(parse_str(s, false, true) == Ok::<(Seq<char>, nat), Error>((cs, h + 4 + n)));
    assert(s.skip((h + 4 + n) as int) =~= rest);
}

proof fn lemma_bytes(b: Seq<u8>, tag: u8, rest: Seq<u8>)
    requires
        b.len() <= bytes_max(),
    ensures
        reads_back(ValueView::Bytes(b), tag, rest),
{
    lemma_pow256_values();
    let s = enc_value(ValueView::Bytes(b), tag) + rest;
    let n = b.len();
    assert(b.take(n as int) =~= b);
    let inner = head(0, JceType::I8) + enc_int(0, n as int) + b + rest;
    lemma_head(tag, JceType::Bytes, inner);
    assert(head(tag, JceType::Bytes) + inner =~= s);
    let h = head(tag, JceType::Bytes).len();
    assert(s.skip(h as int) =~= inner);
    lemma_head(0, JceType::I8, enc_int(0, n as int) + b + rest);
    assert(head(0, JceType::I8) + (enc_int(0, n as int) + b + rest) =~= inner);
    assert(inner.skip(1) =~= enc_int(0, n as int) + (b + rest));
    lemma_int_round_trip(0, n as int, 4, b + rest);
    let k = enc_int(0, n as int).len();
    assert(inner.subrange((1 + k) as int, (1 + k + n) as int) =~= b);
    assert(s.skip((h + 1 + k + n) as int) =~= rest);
}

proof fn lemma_list(xs: Seq<ValueView>, tag: u8, rest: Seq<u8>)
    requires
        xs.len() <= 0x7fff_ffff,
        parse_items(concat(list_parts(xs)) + rest, xs.len(), Seq::empty()) == Ok::<
            (Seq<ValueView>, Seq<u8>),
            Error,
        >((xs, rest)),
    ensures
        reads_back(ValueView::List(xs), tag, rest),
{
    lemma_pow256_values();
    let s = enc_value(ValueView::List(xs), tag) + rest;
    let n = xs.len();
    let body = concat(list_parts(xs)) + rest;
    lemma_head(tag, JceType::List, enc_int(0, n as int) + body);
    assert(head(tag, JceType::List) + (enc_int(0, n as int) + body) =~= s);
    let h = head(tag, JceType::List).len();
    assert(s.skip(h as int) =~= enc_int(0, n as int) + body);
    lemma_int_round_trip(0, n as int, 4, body);
    let k = enc_int(0, n as int).len();
    assert(s.skip((h + k) as int) =~= body);
}

proof fn lemma_map(xs: Seq<(ValueView, ValueView)>, tag: u8, rest: Seq<u8>)
    requires
        xs.len() <= 0x7fff_ffff,
        parse_entries(concat(entry_parts(xs)) + rest, xs.len(), Seq::empty()) == Ok::<
            (Seq<(ValueView, ValueView)>, Seq<u8>),
            Error,
        >((xs, rest)),
    ensures
        reads_back(ValueView::Mapping(xs), tag, rest),
{
    lemma_pow256_values();
    let s = enc_value(ValueView::Mapping(xs), tag) + rest;
    let n = xs.len();
    let body = concat(entry_parts(xs)) + rest;
    lemma_head(tag, JceType::Mapping, enc_int(0, n as int) + body);
    assert(head(tag, JceType::Mapping) + (enc_int(0, n as int) + body) =~= s);
    let h = head(tag, JceType::Mapping).len();
    assert(s.skip(h as int) =~= enc_int(0, n as int) + body);
    lemma_int_round_trip(0, n as int, 4, body);
    let k = enc_int(0, n as int).len();
    assert(s.skip((h + k) as int) =~= body);
}

proof fn lemma_object(xs: Seq<(u8, ValueView)>, tag: u8, rest: Seq<u8>)
    requires
        parse_fields(concat(field_parts(xs)) + struct_end_bytes() + rest, Seq::empty()) == Ok::<
            (Seq<(u8, ValueView)>, Seq<u8>),
            Error,
        >((xs, rest)),
    ensures
        reads_back(ValueView::Object(xs), tag, rest),
{
    let s = enc_value(ValueView::Object(xs), tag) + rest;
    let body = concat(field_parts(xs)) + struct_end_bytes() + rest;
    lemma_head(tag, JceType::StructBegin, body);
    assert(head(tag, JceType::StructBegin) + body =~= s);
    let h = head(tag, JceType::StructBegin).len();
    assert(s.skip(h as int) =~= body);
}

/// The encoding of a canonical value decodes to that value and tag, whatever follows it,
/// and encoding it does not fail.
proof fn lemma_value(v: ValueView, tag: u8, rest: Seq<u8>)
    requires
        canonical(v),
    ensures
        reads_back(v, tag, rest),
        enc_error(v) is None,
    decreases v, 0int,
{
    match v {
        ValueView::Zero => lemma_zero(tag, rest),
        ValueView::Int(n) => lemma_int(n, tag, rest),
        ValueView::Float(b) => lemma_float(b, tag, rest),
        ValueView::Double(b) => lemma_double(b, tag, rest),
        ValueView::Str(cs) => if encode_utf8(cs).len() <= 255 {
            lemma_str_short(cs, tag, rest)
        } else {
            lemma_str_long(cs, tag, rest)
        },
        ValueView::Bytes(b) => lemma_bytes(b, tag, rest),
        ValueView::List(xs) => {
            assert(list_parts(xs).skip(0) =~= list_parts(xs));
            assert(xs.take(0) =~= Seq::<ValueView>::empty());
            lemma_items(xs, 0, rest);
            lemma_list(xs, tag, rest);
        },
        ValueView::Mapping(xs) => {
            assert(entry_parts(xs).skip(0) =~= entry_parts(xs));
            assert(xs.take(0) =~= Seq::<(ValueView, ValueView)>::empty());
            lemma_entries(xs, 0, rest);
            lemma_map(xs, tag, rest);
        },
        ValueView::Object(xs) => {
            assert(field_parts(xs).skip(0) =~= field_parts(xs));
            assert(xs.take(0) =~= Seq::<(u8, ValueView)>::empty());
            lemma_fields(xs, 0, rest);
            lemma_object(xs, tag, rest);
        },
    }
}

#[verifier::rlimit(60)]
#[verifier::spinoff_prover]
proof fn lemma_items(xs: Seq<ValueView>, i: int, rest: Seq<u8>)
    requires
        0 <= i <= xs.len(),
        forall|j: int| 0 <= j < xs.len() ==> canonical(#[trigger] xs[j]),
    ensures
        parse_items(concat(list_parts(xs).skip((i) as int)) + rest, (xs.len() - i) as nat, xs.take(i))
            == Ok::<(Seq<ValueView>, Seq<u8>), Error>((xs, rest)),
        first_error(list_errors(xs), i as nat) is None,
    decreases xs, xs.len() - i,
{
    let ps = list_parts(xs).skip((i) as int);
    if i == xs.len() {
        assert(ps =~= Seq::<Seq<u8>>::empty());
        assert(concat(ps) + rest =~= rest);
        assert(xs.take(i) =~= xs);
    } else {
        lemma_concat_front(ps);
        assert(ps.drop_first() =~= list_parts(xs).skip((i + 1) as int));
        let tail = concat(list_parts(xs).skip((i + 1) as int)) + rest;
        lemma_value(xs[i], 0, tail);
        assert(concat(ps) + rest =~= enc_value(xs[i], 0) + tail);
        assert(xs.take(i).push(xs[i]) =~= xs.take(i + 1));
        lemma_items(xs, i + 1, rest);
    }
}

proof fn lemma_entry_step(
    whole: Seq<u8>,
    mid: Seq<u8>,
    tail: Seq<u8>,
    m: nat,
    acc: Seq<(ValueView, ValueView)>,
    k: ValueView,
    v: ValueView,
)
    requires
        m > 0,
        parse_value(whole) == Ok::<(u8, ValueView, Seq<u8>), Error>((0, k, mid)),
        parse_value(mid) == Ok::<(u8, ValueView, Seq<u8>), Error>((1, v, tail)),
        mid.len() < whole.len(),
        tail.len() <= whole.len(),
    ensures
        parse_entries(whole, m, acc) == parse_entries(tail, (m - 1) as nat, map_insert(acc, k, v)),
{
}

#[verifier::rlimit(100)]
#[verifier::spinoff_prover]
proof fn lemma_entries(xs: Seq<(ValueView, ValueView)>, i: int, rest: Seq<u8>)
    requires
        0 <= i <= xs.len(),
        forall|j: int|
            0 <= j < xs.len() ==> canonical(#[trigger] xs[j].0) && canonical(xs[j].1),
        keys_ascending(xs),
    ensures
        parse_entries(
            concat(entry_parts(xs).skip((i) as int)) + rest,
            (xs.len() - i) as nat,
            xs.take(i),
        ) == Ok::<(Seq<(ValueView, ValueView)>, Seq<u8>), Error>((xs, rest)),
        first_error(entry_errors(xs), i as nat) is None,
    decreases xs, xs.len() - i,
{
    let ps = entry_parts(xs).skip((i) as int);
    if i == xs.len() {
        assert(ps =~= Seq::<Seq<u8>>::empty());
        assert(concat(ps) + rest =~= rest);
        assert(xs.take(i) =~= xs);
    } else {
        lemma_concat_front(ps);
        assert(ps.drop_first() =~= entry_parts(xs).skip((i + 1) as int));
        let tail = concat(entry_parts(xs).skip((i + 1) as int)) + rest;
        let mid = enc_value(xs[i].1, 1) + tail;
        let whole = enc_value(xs[i].0, 0) + mid;
        lemma_value(xs[i].1, 1, tail);
        lemma_value(xs[i].0, 0, mid);
        assert(concat(ps) + rest =~= whole);
        assert(whole.len() == enc_value(xs[i].0, 0).len() + mid.len());
        assert(mid.len() == enc_value(xs[i].1, 1).len() + tail.len());
        let acc = xs.take(i);
        lemma_ascending_insert(xs, i);
        lemma_entries(xs, i + 1, rest);
        lemma_entry_step(whole, mid, tail, (xs.len() - i) as nat, acc, xs[i].0, xs[i].1);
        assert(entry_errors(xs)[i] is None);
    }
}

proof fn lemma_field_step(
    whole: Seq<u8>,
    tail: Seq<u8>,
    acc: Seq<(u8, ValueView)>,
    tag: u8,
    v: ValueView,
)
    requires
        parse_head(whole) is Ok,
        parse_head(whole)->Ok_0.0 == tag,
        parse_head(whole)->Ok_0.1 != JceType::StructEnd,
        !has_tag(acc, tag),
        parse_value(whole) == Ok::<(u8, ValueView, Seq<u8>), Error>((tag, v, tail)),
        tail.len() < whole.len(),
    ensures
        parse_fields(whole, acc) == parse_fields(tail, field_insert(acc, tag, v)),
{
}

/// In a struct with ascending tags, each field goes after the ones before it, and its tag
/// is new.
proof fn lemma_tags_ascending_insert(xs: Seq<(u8, ValueView)>, i: int)
    requires
        0 <= i < xs.len(),
        forall|a: int, b: int| 0 <= a < b < xs.len() ==> (#[trigger] xs[a]).0 < (#[trigger] xs[b]).0,
    ensures
        field_insert(xs.take(i), xs[i].0, xs[i].1) == xs.take(i + 1),
        !has_tag(xs.take(i), xs[i].0),
        !repeats_tag(xs, i),
{
    let acc = xs.take(i);
    assert forall|j: int| 0 <= j < i implies (#[trigger] acc[j]).0 < xs[i].0 by {
        assert(acc[j] == xs[j]);
    }
    lemma_field_insert_at(acc, xs[i].0, xs[i].1, i);
    assert(acc.push((xs[i].0, xs[i].1)) =~= xs.take(i + 1));
    assert(!repeats_tag(xs, i)) by {
        if repeats_tag(xs, i) {
            let j = choose|j: int| 0 <= j < i && xs[j].0 == xs[i].0;
            assert(xs[j].0 < xs[i].0);
        }
    }
}

#[verifier::rlimit(60)]
#[verifier::spinoff_prover]
proof fn lemma_fields(xs: Seq<(u8, ValueView)>, i: int, rest: Seq<u8>)
    requires
        0 <= i <= xs.len(),
        forall|j: int| 0 <= j < xs.len() ==> canonical(#[trigger] xs[j].1),
        forall|a: int, b: int| 0 <= a < b < xs.len() ==> (#[trigger] xs[a]).0 < (#[trigger] xs[b]).0,
    ensures
        parse_fields(concat(field_parts(xs).skip(i as int)) + struct_end_bytes() + rest, xs.take(i))
            == Ok::<(Seq<(u8, ValueView)>, Seq<u8>), Error>((xs, rest)),
        first_error(field_errors(xs), i as nat) is None,
    decreases xs, xs.len() - i,
{
    let ps = field_parts(xs).skip(i as int);
    let acc = xs.take(i);
    if i == xs.len() {
        assert(ps =~= Seq::<Seq<u8>>::empty());
        assert(concat(ps) + struct_end_bytes() + rest =~= head(0, JceType::StructEnd) + rest);
        lemma_head(0, JceType::StructEnd, rest);
        assert((head(0, JceType::StructEnd) + rest).skip(1) =~= rest);
        assert(acc =~= xs);
    } else {
        lemma_concat_front(ps);
        assert(ps.drop_first() =~= field_parts(xs).skip((i + 1) as int));
        let tail = concat(field_parts(xs).skip((i + 1) as int)) + struct_end_bytes() + rest;
        let whole = enc_value(xs[i].1, xs[i].0) + tail;
        lemma_value(xs[i].1, xs[i].0, tail);
        assert(concat(ps) + struct_end_bytes() + rest =~= whole);
        assert(whole.len() == enc_value(xs[i].1, xs[i].0).len() + tail.len());
        lemma_tags_ascending_insert(xs, i);
        lemma_field_step(whole, tail, acc, xs[i].0, xs[i].1);
        lemma_fields(xs, i + 1, rest);
        assert(field_errors(xs)[i] is None);
    }
}

/// Round trip: a canonical value, encoded under any tag and followed by any bytes, decodes
/// to itself and that tag, leaving exactly those bytes; its encoding does not fail, and on
/// its own it decodes as a whole buffer to the value.
pub proof fn lemma_round_trip(v: ValueView, tag: u8, rest: Seq<u8>)
    requires
        canonical(v),
    ensures
        enc_error(v) is None,
        parse_value(enc_value(v, tag) + rest) == Ok::<(u8, ValueView, Seq<u8>), Error>(
            (tag, v, rest),
        ),
        decode_spec(enc_value(v, tag)) == Ok::<ValueView, Error>(v),
{
    lemma_value(v, tag, rest);
    lemma_value(v, tag, Seq::empty());
    assert(reads_back(v, tag, rest));
    assert(enc_value(v, tag) + Seq::<u8>::empty() =~= enc_value(v, tag));
}

proof fn lemma_skip_append(s: Seq<u8>, e: Seq<u8>, k: int)
    requires
        0 <= k <= s.len(),
    ensures
        (s + e).skip(k) == s.skip(k) + e,
        (s + e).subrange(0, k) == s.subrange(0, k),
{
    assert((s + e).skip(k) =~= s.skip(k) + e);
    assert((s + e).subrange(0, k) =~= s.subrange(0, k));
}

proof fn lemma_sub_append(s: Seq<u8>, e: Seq<u8>, a: int, b: int)
    requires
        0 <= a <= b <= s.len(),
    ensures
        (s + e).subrange(a, b) == s.subrange(a, b),
{
    assert((s + e).subrange(a, b) =~= s.subrange(a, b));
}

proof fn lemma_head_prefix(s: Seq<u8>, e: Seq<u8>)
    requires
        parse_head(s) is Ok,
    ensures
        parse_head(s + e) == parse_head(s),
        parse_type(s + e) == parse_type(s),
        parse_head(s)->Ok_0.2 <= s.len(),
{
}

proof fn lemma_int_prefix(s: Seq<u8>, e: Seq<u8>, max: nat)
    requires
        parse_int(s, max) is Ok,
    ensures
        parse_int(s + e, max) == parse_int(s, max),
        parse_int(s, max)->Ok_0.1 <= s.len(),
{
    lemma_head_prefix(s, e);
    let (_t, ty, h) = parse_head(s)->Ok_0;
    if ty != JceType::Zero {
        lemma_sub_append(s, e, h as int, (h + width(ty)) as int);
    }
}

proof fn lemma_flat_prefix(s: Seq<u8>, e: Seq<u8>)
    ensures
        parse_f32(s) is Ok ==> parse_f32(s + e) == parse_f32(s) && parse_f32(s)->Ok_0.1 <= s.len(),
        parse_f64(s) is Ok ==> parse_f64(s + e) == parse_f64(s) && parse_f64(s)->Ok_0.1 <= s.len(),
        parse_marker(s, JceType::Zero) is Ok ==> parse_marker(s + e, JceType::Zero) == parse_marker(
            s,
            JceType::Zero,
        ),
        parse_marker(s, JceType::StructBegin) is Ok ==> parse_marker(s + e, JceType::StructBegin)
            == parse_marker(s, JceType::StructBegin),
{
    if parse_head(s) is Ok {
        lemma_head_prefix(s, e);
        let (_t, ty, h) = parse_head(s)->Ok_0;
        if parse_f32(s) is Ok && ty == JceType::F32 {
            lemma_sub_append(s, e, h as int, (h + 4) as int);
        }
        if parse_f64(s) is Ok && ty == JceType::F32 {
            lemma_sub_append(s, e, h as int, (h + 4) as int);
        }
        if parse_f64(s) is Ok && ty == JceType::F64 {
            lemma_sub_append(s, e, h as int, (h + 8) as int);
        }
    }
}

proof fn lemma_str_prefix(s: Seq<u8>, e: Seq<u8>, small: bool, big: bool)
    requires
        parse_str_bytes(s, small, big) is Ok,
    ensures
        parse_str_bytes(s + e, small, big) == parse_str_bytes(s, small, big),
        parse_str_bytes(s, small, big)->Ok_0.1 <= s.len(),
{
    lemma_head_prefix(s, e);
    let (_t, ty, h) = parse_head(s)->Ok_0;
    if ty != JceType::Zero {
        let lw: nat = if ty == JceType::String1 { 1 } else { 4 };
        lemma_sub_append(s, e, h as int, (h + lw) as int);
        let n = fixed(s, h, lw);
        lemma_sub_append(s, e, (h + lw) as int, (h + lw + n) as int);
    }
}

proof fn lemma_bytes_prefix(s: Seq<u8>, e: Seq<u8>)
    requires
        parse_bytes(s) is Ok,
    ensures
        parse_bytes(s + e) == parse_bytes(s),
        parse_bytes(s)->Ok_0.1 <= s.len(),
{
    lemma_head_prefix(s, e);
    let (_t, ty, h) = parse_head(s)->Ok_0;
    if ty != JceType::Zero {
        let s1 = s.skip(h as int);
        lemma_skip_append(s, e, h as int);
        lemma_head_prefix(s1, e);
        let h2 = parse_head(s1)->Ok_0.2;
        let s2 = s1.skip(h2 as int);
        lemma_skip_append(s1, e, h2 as int);
        lemma_int_prefix(s2, e, 4);
        let (n, k) = parse_int(s2, 4)->Ok_0;
        lemma_sub_append(s1, e, (h2 + k) as int, (h2 + k + n) as int);
        assert(parse_bytes_payload(s1 + e) == parse_bytes_payload(s1));
    }
}

proof fn lemma_len_prefix(s: Seq<u8>, e: Seq<u8>, t: JceType)
    requires
        parse_len(s, t) is Ok,
    ensures
        parse_len(s + e, t) == parse_len(s, t),
        parse_len(s, t)->Ok_0.1 <= s.len(),
{
    lemma_head_prefix(s, e);
    let (_t, ty, h) = parse_head(s)->Ok_0;
    if ty != JceType::Zero {
        lemma_skip_append(s, e, h as int);
        lemma_int_prefix(s.skip(h as int), e, 4);
    }
}

/// What a successful read of a value leaves, it leaves with anything appended.
pub(crate) proof fn lemma_value_prefix(s: Seq<u8>, e: Seq<u8>)
    requires
        parse_value(s) is Ok,
    ensures
        parse_value(s + e) == Ok::<(u8, ValueView, Seq<u8>), Error>(
            (parse_value(s)->Ok_0.0, parse_value(s)->Ok_0.1, parse_value(s)->Ok_0.2 + e),
        ),
        parse_value(s)->Ok_0.2.len() < s.len(),
    decreases s.len(), 0int, 0int,
{
    lemma_head_prefix(s, e);
    let (_tag, t, h) = parse_head(s)->Ok_0;
    if t == JceType::Zero {
        lemma_skip_append(s, e, h as int);
    } else if is_int_type(t) {
        lemma_int_prefix(s, e, width(t));
        lemma_skip_append(s, e, parse_int(s, width(t))->Ok_0.1 as int);
    } else if t == JceType::F32 {
        lemma_flat_prefix(s, e);
        lemma_skip_append(s, e, parse_f32(s)->Ok_0.1 as int);
    } else if t == JceType::F64 {
        lemma_flat_prefix(s, e);
        lemma_skip_append(s, e, parse_f64(s)->Ok_0.1 as int);
    } else if t == JceType::String1 || t == JceType::String4 {
        lemma_str_prefix(s, e, t == JceType::String1, t == JceType::String4);
        lemma_skip_append(
            s,
            e,
            parse_str_bytes(s, t == JceType::String1, t == JceType::String4)->Ok_0.1 as int,
        );
    } else if t == JceType::Bytes {
        lemma_bytes_prefix(s, e);
        lemma_skip_append(s, e, parse_bytes(s)->Ok_0.1 as int);
    } else if t == JceType::List {
        lemma_len_prefix(s, e, t);
        let (n, k) = parse_len(s, t)->Ok_0;
        lemma_skip_append(s, e, k as int);
        lemma_items_prefix(s.skip(k as int), e, n, Seq::empty());
    } else if t == JceType::Mapping {
        lemma_len_prefix(s, e, t);
        let (n, k) = parse_len(s, t)->Ok_0;
        lemma_skip_append(s, e, k as int);
        lemma_entries_prefix(s.skip(k as int), e, n, Seq::empty());
    } else if t == JceType::StructBegin {
        lemma_skip_append(s, e, h as int);
        lemma_fields_prefix(s.skip(h as int), e, Seq::empty());
    }
}

proof fn lemma_items_prefix(s: Seq<u8>, e: Seq<u8>, n: nat, acc: Seq<ValueView>)
    requires
        parse_items(s, n, acc) is Ok,
    ensures
        parse_items(s + e, n, acc) == Ok::<(Seq<ValueView>, Seq<u8>), Error>(
            (parse_items(s, n, acc)->Ok_0.0, parse_items(s, n, acc)->Ok_0.1 + e),
        ),
        parse_items(s, n, acc)->Ok_0.1.len() <= s.len(),
    decreases s.len(), 1int, n,
{
    if n > 0 {
        lemma_value_prefix(s, e);
        let (_t, v, rest) = parse_value(s)->Ok_0;
        lemma_items_prefix(rest, e, (n - 1) as nat, acc.push(v));
    }
}

proof fn lemma_entries_prefix(
    s: Seq<u8>,
    e: Seq<u8>,
    n: nat,
    acc: Seq<(ValueView, ValueView)>,
)
    requires
        parse_entries(s, n, acc) is Ok,
    ensures
        parse_entries(s + e, n, acc) == Ok::<(Seq<(ValueView, ValueView)>, Seq<u8>), Error>(
            (parse_entries(s, n, acc)->Ok_0.0, parse_entries(s, n, acc)->Ok_0.1 + e),
        ),
        parse_entries(s, n, acc)->Ok_0.1.len() <= s.len(),
    decreases s.len(), 1int, n,
{
    if n > 0 {
        lemma_value_prefix(s, e);
        let (_t1, k, r1) = parse_value(s)->Ok_0;
        lemma_value_prefix(r1, e);
        let (_t2, v, r2) = parse_value(r1)->Ok_0;
        lemma_entries_prefix(r2, e, (n - 1) as nat, map_insert(acc, k, v));
    }
}

proof fn lemma_fields_prefix(s: Seq<u8>, e: Seq<u8>, acc: Seq<(u8, ValueView)>)
    requires
        parse_fields(s, acc) is Ok,
    ensures
        parse_fields(s + e, acc) == Ok::<(Seq<(u8, ValueView)>, Seq<u8>), Error>(
            (parse_fields(s, acc)->Ok_0.0, parse_fields(s, acc)->Ok_0.1 + e),
        ),
        parse_fields(s, acc)->Ok_0.1.len() <= s.len(),
    decreases s.len(), 1int, 0int,
{
    lemma_head_prefix(s, e);
    let (tag, t, h) = parse_head(s)->Ok_0;
    if t == JceType::StructEnd {
        lemma_skip_append(s, e, h as int);
    } else {
        lemma_value_prefix(s, e);
        let (_t, v, rest) = parse_value(s)->Ok_0;
        lemma_fields_prefix(rest, e, field_insert(acc, tag, v));
    }
}

/// Trailing bytes: a whole buffer that holds one complete value followed by anything
/// more is refused with `TrailingBytes`.
pub proof fn lemma_trailing_bytes(bytes: Seq<u8>, extra: Seq<u8>)
    requires
        decode_spec(bytes) is Ok,
        extra.len() > 0,
    ensures
        decode_spec(bytes + extra) == Err::<ValueView, Error>(Error::TrailingBytes),
{
    lemma_value_prefix(bytes, extra);
}

/// In particular, the encoding of a canonical value followed by more bytes is refused.
pub proof fn lemma_trailing_bytes_after_encoding(v: ValueView, tag: u8, extra: Seq<u8>)
    requires
        canonical(v),
        extra.len() > 0,
    ensures
        decode_spec(enc_value(v, tag) + extra) == Err::<ValueView, Error>(Error::TrailingBytes),
{
    lemma_round_trip(v, tag, Seq::empty());
    lemma_trailing_bytes(enc_value(v, tag), extra);
}

/// Zero elision: the integer `0`, the empty string and the absent value are written as a
/// bare `Zero` header, a single byte under a tag below 15.
pub proof fn lemma_zero_elision(tag: u8)
    ensures
        enc_int(tag, 0) == head(tag, JceType::Zero),
        enc_str(tag, Seq::empty()) == head(tag, JceType::Zero),
        enc_value(ValueView::Str(Seq::empty()), tag) == head(tag, JceType::Zero),
        enc_value(ValueView::Int(0), tag) == head(tag, JceType::Zero),
        enc_value(ValueView::Zero, tag) == head(tag, JceType::Zero),
        tag < 15 ==> head(tag, JceType::Zero).len() == 1,
{
    lemma_zero_int(tag);
    assert(encode_utf8(Seq::<char>::empty()) =~= Seq::<u8>::empty());
}

/// Duplicate tags, read: a struct whose first two fields share a tag is refused with
/// `DuplicateFieldTag`.
pub proof fn lemma_duplicate_tag_decode(
    tag: u8,
    field: u8,
    a: ValueView,
    b: ValueView,
    rest: Seq<u8>,
)
    requires
        canonical(a),
        canonical(b),
    ensures
        parse_value(
            head(tag, JceType::StructBegin) + enc_value(a, field) + enc_value(b, field) + rest,
        ) == Err::<(u8, ValueView, Seq<u8>), Error>(Error::DuplicateFieldTag),
{
    let tail = enc_value(b, field) + rest;
    let body = enc_value(a, field) + tail;
    let s = head(tag, JceType::StructBegin) + body;
    assert(head(tag, JceType::StructBegin) + enc_value(a, field) + enc_value(b, field) + rest
        =~= s);
    lemma_head(tag, JceType::StructBegin, body);
    let h = head(tag, JceType::StructBegin).len();
    assert(s.skip(h as int) =~= body);
    lemma_value(a, field, tail);
    lemma_value(b, field, rest);
    assert(!has_tag(Seq::<(u8, ValueView)>::empty(), field));
    let acc = field_insert(Seq::<(u8, ValueView)>::empty(), field, a);
    assert(acc[0].0 == field);
    assert(has_tag(acc, field));
    assert(body.len() == enc_value(a, field).len() + tail.len());
    lemma_field_step(body, tail, Seq::empty(), field, a);
}

proof fn lemma_first_repeat(xs: Seq<(u8, ValueView)>, k: int)
    requires
        0 <= k <= xs.len(),
        forall|j: int| 0 <= j < xs.len() ==> canonical(#[trigger] xs[j].1),
        exists|i: int| k <= i < xs.len() && repeats_tag(xs, i),
    ensures
        first_error(field_errors(xs), k as nat) == Some(Error::DuplicateFieldTag),
    decreases xs.len() - k,
{
    if !repeats_tag(xs, k) {
        lemma_value(xs[k].1, xs[k].0, Seq::empty());
        assert(field_errors(xs)[k] is None);
        let i = choose|i: int| k <= i < xs.len() && repeats_tag(xs, i);
        assert(i != k);
        lemma_first_repeat(xs, k + 1);
    }
}

/// Duplicate tags, written: a struct with two fields that share a tag, whose values can be
/// written, is not in the form that `Value::encode` takes, and its encoding is refused with
/// `DuplicateFieldTag`. (For typed records the tag is checked before the field's bytes are
/// written: see `StructSerializer::field_tag`.)
pub proof fn lemma_duplicate_tag_encode(xs: Seq<(u8, ValueView)>, i: int, j: int)
    requires
        0 <= i < j < xs.len(),
        xs[i].0 == xs[j].0,
        forall|k: int| 0 <= k < xs.len() ==> canonical(#[trigger] xs[k].1),
    ensures
        enc_error(ValueView::Object(xs)) == Some(Error::DuplicateFieldTag),
        !ordered(ValueView::Object(xs)),
{
    reveal(ordered);
    assert(repeats_tag(xs, j));
    lemma_first_repeat(xs, 0);
}

/// A field with a new tag that is not asked for is skipped, and the next field is read.
proof fn lemma_skip_then_field(
    field: Seq<u8>,
    rest: Seq<u8>,
    seen: Set<u8>,
    expected: Set<u8>,
)
    requires
        parse_head(field + rest) is Ok,
        parse_head(field + rest)->Ok_0.1 != JceType::StructEnd,
        !seen.contains(parse_head(field + rest)->Ok_0.0),
        !expected.contains(parse_head(field + rest)->Ok_0.0),
        skip_value(field + rest) == Ok::<Seq<u8>, Error>(rest),
        field.len() > 0,
        parse_head(rest) is Ok,
        parse_head(rest)->Ok_0.1 != JceType::StructEnd,
        parse_head(rest)->Ok_0.0 != parse_head(field + rest)->Ok_0.0,
        !seen.contains(parse_head(rest)->Ok_0.0),
        expected.contains(parse_head(rest)->Ok_0.0),
    ensures
        next_field(field + rest, seen, Some(expected)) == Ok::<
            (Option<u8>, Seq<u8>, Set<u8>),
            Error,
        >(
            (
                Some(parse_head(rest)->Ok_0.0),
                rest,
                seen.insert(parse_head(field + rest)->Ok_0.0).insert(parse_head(rest)->Ok_0.0),
            ),
        ),
{
    reveal_with_fuel(next_field, 2);
    let u = parse_head(field + rest)->Ok_0.0;
    let seen2 = seen.insert(u);
    assert(!seen2.contains(parse_head(rest)->Ok_0.0));
    assert(next_field(field + rest, seen, Some(expected)) == next_field(rest, seen2, Some(expected)));
}

/// What the value reader reads, `ignore` skips: the same bytes.
pub proof fn lemma_skip_of_parse(s: Seq<u8>)
    requires
        parse_value(s) is Ok,
    ensures
        skip_value(s) == Ok::<Seq<u8>, Error>(parse_value(s)->Ok_0.2),
    decreases s.len(), 0int, 0int,
{
    lemma_value_prefix(s, Seq::empty());
    let (_tag, t, h) = parse_head(s)->Ok_0;
    assert(parse_type(s) == Ok::<JceType, Error>(t));
    if t == JceType::List {
        let (n, k) = parse_len(s, t)->Ok_0;
        lemma_skip_items(s.skip(k as int), n, Seq::empty());
    } else if t == JceType::Mapping {
        let (n, k) = parse_len(s, t)->Ok_0;
        lemma_skip_entries(s.skip(k as int), n, Seq::empty());
    } else if t == JceType::StructBegin {
        lemma_skip_fields(s.skip(h as int), Seq::empty());
    } else {
        assert(skip_value(s) == match skip_flat(s, t) {
            Err(e) => Err(e),
            Ok(k) => Ok::<Seq<u8>, Error>(s.skip(k as int)),
        });
    }
}

proof fn lemma_skip_items(s: Seq<u8>, n: nat, acc: Seq<ValueView>)
    requires
        parse_items(s, n, acc) is Ok,
    ensures
        skip_values(s, n) == Ok::<Seq<u8>, Error>(parse_items(s, n, acc)->Ok_0.1),
    decreases s.len(), 1int, n,
{
    if n > 0 {
        lemma_skip_of_parse(s);
        lemma_value_prefix(s, Seq::empty());
        let (_t, v, rest) = parse_value(s)->Ok_0;
        lemma_skip_items(rest, (n - 1) as nat, acc.push(v));
    }
}

proof fn lemma_skip_entries(s: Seq<u8>, n: nat, acc: Seq<(ValueView, ValueView)>)
    requires
        parse_entries(s, n, acc) is Ok,
    ensures
        skip_values(s, 2 * n) == Ok::<Seq<u8>, Error>(parse_entries(s, n, acc)->Ok_0.1),
    decreases s.len(), 1int, n,
{
    if n > 0 {
        lemma_skip_of_parse(s);
        lemma_value_prefix(s, Seq::empty());
        let (_t1, k, r1) = parse_value(s)->Ok_0;
        lemma_skip_of_parse(r1);
        lemma_value_prefix(r1, Seq::empty());
        let (_t2, v, r2) = parse_value(r1)->Ok_0;
        lemma_skip_entries(r2, (n - 1) as nat, map_insert(acc, k, v));
        assert(skip_values(r1, (2 * n - 1) as nat) == skip_values(r2, (2 * (n - 1)) as nat));
    }
}

proof fn lemma_skip_fields(s: Seq<u8>, acc: Seq<(u8, ValueView)>)
    requires
        parse_fields(s, acc) is Ok,
    ensures
        skip_fields(s) == Ok::<Seq<u8>, Error>(parse_fields(s, acc)->Ok_0.1),
    decreases s.len(), 1int, 0int,
{
    let (tag, t, h) = parse_head(s)->Ok_0;
    if t != JceType::StructEnd {
        lemma_skip_of_parse(s);
        lemma_value_prefix(s, Seq::empty());
        let (_t, v, rest) = parse_value(s)->Ok_0;
        lemma_skip_fields(rest, field_insert(acc, tag, v));
    }
}

/// Unknown fields: while a struct is read for the tags `expected`, a field whose new tag
/// is not among them is skipped whole, and the expected field right after it is handed
/// over with the parser at its header.
pub proof fn lemma_unknown_field_skipped(
    m: ValueView,
    u: u8,
    rest: Seq<u8>,
    seen: Set<u8>,
    expected: Set<u8>,
)
    requires
        canonical(m),
        !seen.contains(u),
        !expected.contains(u),
        parse_head(rest) is Ok,
        parse_head(rest)->Ok_0.1 != JceType::StructEnd,
        parse_head(rest)->Ok_0.0 != u,
        !seen.contains(parse_head(rest)->Ok_0.0),
        expected.contains(parse_head(rest)->Ok_0.0),
    ensures
        next_field(enc_value(m, u) + rest, seen, Some(expected)) == Ok::<
            (Option<u8>, Seq<u8>, Set<u8>),
            Error,
        >((Some(parse_head(rest)->Ok_0.0), rest, seen.insert(u).insert(parse_head(rest)->Ok_0.0))),
{
    lemma_value(m, u, rest);
    lemma_skip_of_parse(enc_value(m, u) + rest);
    lemma_skip_then_field(enc_value(m, u), rest, seen, expected);
}

/// One field with a new tag that is not asked for is skipped whole.
proof fn lemma_skip_one_field(
    m: ValueView,
    u: u8,
    rest: Seq<u8>,
    seen: Set<u8>,
    expected: Set<u8>,
)
    requires
        canonical(m),
        !seen.contains(u),
        !expected.contains(u),
    ensures
        next_field(enc_value(m, u) + rest, seen, Some(expected)) == next_field(
            rest,
            seen.insert(u),
            Some(expected),
        ),
{
    lemma_value(m, u, rest);
    lemma_skip_of_parse(enc_value(m, u) + rest);
    assert((enc_value(m, u) + rest).len() == enc_value(m, u).len() + rest.len());
}

/// The tags of the fields `fs`.
pub open spec fn tag_set(fs: Seq<(u8, ValueView)>) -> Set<u8> {
    Set::new(|t: u8| exists|i: int| 0 <= i < fs.len() && fs[i].0 == t)
}

/// Unknown fields, any number of them: while a struct is read for the tags `expected`,
/// fields with new, distinct tags that are not asked for are all skipped whole, and the
/// read goes on after them with their tags seen.
pub proof fn lemma_unknown_fields_skipped(
    fs: Seq<(u8, ValueView)>,
    rest: Seq<u8>,
    seen: Set<u8>,
    expected: Set<u8>,
)
    requires
        forall|i: int| 0 <= i < fs.len() ==> canonical(#[trigger] fs[i].1),
        forall|i: int| 0 <= i < fs.len() ==> !expected.contains(#[trigger] fs[i].0),
        forall|i: int| 0 <= i < fs.len() ==> !seen.contains(#[trigger] fs[i].0),
        forall|i: int, j: int| 0 <= i < j < fs.len() ==> (#[trigger] fs[i]).0 != (#[trigger] fs[j]).0,
    ensures
        next_field(concat(field_parts(fs)) + rest, seen, Some(expected)) == next_field(
            rest,
            seen.union(tag_set(fs)),
            Some(expected),
        ),
    decreases fs.len(),
{
    if fs.len() == 0 {
        assert(field_parts(fs) =~= Seq::<Seq<u8>>::empty());
        assert(concat(field_parts(fs)) + rest =~= rest);
        assert(seen.union(tag_set(fs)) =~= seen);
    } else {
        let d = fs.drop_first();
        let ps = field_parts(fs);
        lemma_concat_front(ps);
        assert(ps.drop_first() =~= field_parts(d));
        let tail = concat(field_parts(d)) + rest;
        assert(concat(ps) + rest =~= enc_value(fs[0].1, fs[0].0) + tail);
        lemma_skip_one_field(fs[0].1, fs[0].0, tail, seen, expected);
        let seen2 = seen.insert(fs[0].0);
        assert forall|j: int| 0 <= j < d.len() implies !seen2.contains(#[trigger] d[j].0) by {
            assert(d[j] == fs[j + 1]);
        }
        assert forall|j: int| 0 <= j < d.len() implies canonical(#[trigger] d[j].1)
            && !expected.contains(d[j].0) by {
            assert(d[j] == fs[j + 1]);
        }
        assert forall|a: int, b: int| 0 <= a < b < d.len() implies (#[trigger] d[a]).0 != (
        #[trigger] d[b]).0 by {
            assert(d[a] == fs[a + 1] && d[b] == fs[b + 1]);
        }
        lemma_unknown_fields_skipped(d, rest, seen2, expected);
        assert(seen2.union(tag_set(d)) =~= seen.union(tag_set(fs))) by {
            assert forall|t: u8| tag_set(d).contains(t) implies tag_set(fs).contains(t) by {
                let i = choose|i: int| 0 <= i < d.len() && d[i].0 == t;
                assert(fs[i + 1] == d[i]);
            }
            assert forall|t: u8| tag_set(fs).contains(t) && t != fs[0].0 implies tag_set(
                d,
            ).contains(t) by {
                let i = choose|i: int| 0 <= i < fs.len() && fs[i].0 == t;
                assert(d[i - 1] == fs[i]);
            }
        }
    }
}

/// A value that the format can carry without loss, whatever the order of its maps and
/// structs: no `Int(0)` and no empty string (both written as `Zero`), and every string, byte
/// string, list and map within the format's lengths.
pub open spec fn representable(v: ValueView) -> bool
    decreases v,
{
    match v {
        ValueView::Int(n) => n != 0 && fits(n, 8),
        ValueView::Str(cs) => 0 < encode_utf8(cs).len() <= string_max(),
        ValueView::Bytes(b) => b.len() <= bytes_max(),
        ValueView::List(xs) => xs.len() <= 0x7fff_ffff && forall|i: int|
            0 <= i < xs.len() ==> representable(#[trigger] xs[i]),
        ValueView::Mapping(xs) => xs.len() <= 0x7fff_ffff && forall|i: int|
            0 <= i < xs.len() ==> representable(#[trigger] xs[i].0) && representable(xs[i].1),
        ValueView::Object(xs) => forall|i: int| 0 <= i < xs.len() ==> representable(#[trigger] xs[i].1),
        _ => true,
    }
}

proof fn lemma_keys_pair(xs: Seq<(ValueView, ValueView)>, i: int, j: int)
    requires
        keys_ordered(xs),
        0 <= i < j < xs.len(),
    ensures
        value_cmp(xs[i].0, xs[j].0) == Ordering::Less,
    decreases j - i,
{
    assert(value_cmp(xs[j - 1].0, xs[(j - 1) + 1].0) == Ordering::Less);
    if j > i + 1 {
        lemma_keys_pair(xs, i, j - 1);
        lemma_cmp_trans(xs[i].0, xs[j - 1].0, xs[j].0);
    }
}

/// Keys that each come before the next come before all later ones.
proof fn lemma_keys_pairwise(xs: Seq<(ValueView, ValueView)>)
    requires
        keys_ordered(xs),
    ensures
        keys_ascending(xs),
{
    reveal(keys_ascending);
    assert forall|i: int, j: int| 0 <= i < j < xs.len() implies value_cmp(
        #[trigger] xs[i].0,
        #[trigger] xs[j].0,
    ) == Ordering::Less by {
        lemma_keys_pair(xs, i, j);
    }
}

/// An ordered, representable value is canonical.
proof fn lemma_canonical_of(v: ValueView)
    requires
        ordered(v),
        representable(v),
    ensures
        canonical(v),
    decreases v,
{
    reveal(ordered);
    match v {
        ValueView::List(xs) => {
            assert forall|i: int| 0 <= i < xs.len() implies canonical(#[trigger] xs[i]) by {
                lemma_canonical_of(xs[i]);
            }
        },
        ValueView::Mapping(xs) => {
            assert forall|i: int| 0 <= i < xs.len() implies canonical(#[trigger] xs[i].0)
                && canonical(xs[i].1) by {
                lemma_canonical_of(xs[i].0);
                lemma_canonical_of(xs[i].1);
            }
            lemma_keys_pairwise(xs);
        },
        ValueView::Object(xs) => {
            assert forall|i: int| 0 <= i < xs.len() implies canonical(#[trigger] xs[i].1) by {
                lemma_canonical_of(xs[i].1);
            }
        },
        _ => {},
    }
}

/// Round trip, for every value that `Value::encode` takes: an ordered value (the form that
/// decoding gives) that the format can carry without loss, encoded under any tag and
/// followed by any bytes, decodes to itself and that tag, leaving exactly those bytes; its
/// encoding does not fail, and on its own it decodes as a whole buffer to the value.
pub proof fn lemma_round_trip_ordered(v: ValueView, tag: u8, rest: Seq<u8>)
    requires
        ordered(v),
        representable(v),
    ensures
        enc_error(v) is None,
        parse_value(enc_value(v, tag) + rest) == Ok::<(u8, ValueView, Seq<u8>), Error>(
            (tag, v, rest),
        ),
        decode_spec(enc_value(v, tag)) == Ok::<ValueView, Error>(v),
{
    lemma_canonical_of(v);
    lemma_round_trip(v, tag, rest);
}

} // verus!
