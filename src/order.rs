//! Properties of the value order, and the order that decoding puts values in.
use vstd::prelude::*;

use core::cmp::Ordering;

use crate::error::Error;
use crate::format::{parse_head, parse_len};
use crate::laws::lemma_value_prefix;
use crate::types::JceType;
use crate::value::{
    cmp_bytes, cmp_entries, cmp_fields, cmp_int, cmp_list, field_insert, map_insert,
    parse_entries, parse_fields, parse_items, parse_value, rank, value_cmp, ValueView,
};

verus! {

/// The opposite outcome of a comparison.
pub open spec fn flip(o: Ordering) -> Ordering {
    match o {
        Ordering::Less => Ordering::Greater,
        Ordering::Greater => Ordering::Less,
        Ordering::Equal => Ordering::Equal,
    }
}

proof fn lemma_bytes_flip(a: Seq<u8>, b: Seq<u8>, i: nat)
    ensures
        cmp_bytes(b, a, i) == flip(cmp_bytes(a, b, i)),
    decreases a.len() - i,
{
    if i < a.len() && i < b.len() && a[i as int] == b[i as int] {
        lemma_bytes_flip(a, b, i + 1);
    }
}

/// Comparing the other way round gives the opposite outcome.
pub proof fn lemma_cmp_flip(a: ValueView, b: ValueView)
    ensures
        value_cmp(b, a) == flip(value_cmp(a, b)),
    decreases a, 0int,
{
    if rank(a) == rank(b) {
        match (a, b) {
            (ValueView::Str(x), ValueView::Str(y)) => lemma_bytes_flip(
                vstd::utf8::encode_utf8(x),
                vstd::utf8::encode_utf8(y),
                0,
            ),
            (ValueView::Bytes(x), ValueView::Bytes(y)) => lemma_bytes_flip(x, y, 0),
            (ValueView::List(x), ValueView::List(y)) => lemma_list_flip(x, y, 0),
            (ValueView::Mapping(x), ValueView::Mapping(y)) => lemma_entries_flip(x, y, 0),
            (ValueView::Object(x), ValueView::Object(y)) => lemma_fields_flip(x, y, 0),
            _ => {},
        }
    }
}

proof fn lemma_list_flip(x: Seq<ValueView>, y: Seq<ValueView>, i: nat)
    ensures
        cmp_list(y, x, i) == flip(cmp_list(x, y, i)),
    decreases x, x.len() - i,
{
    if i < x.len() && i < y.len() {
        lemma_cmp_flip(x[i as int], y[i as int]);
        if value_cmp(x[i as int], y[i as int]) == Ordering::Equal {
            lemma_list_flip(x, y, i + 1);
        }
    }
}

proof fn lemma_entries_flip(
    x: Seq<(ValueView, ValueView)>,
    y: Seq<(ValueView, ValueView)>,
    i: nat,
)
    ensures
        cmp_entries(y, x, i) == flip(cmp_entries(x, y, i)),
    decreases x, x.len() - i,
{
    if i < x.len() && i < y.len() {
        lemma_cmp_flip(x[i as int].0, y[i as int].0);
        lemma_cmp_flip(x[i as int].1, y[i as int].1);
        if value_cmp(x[i as int].0, y[i as int].0) == Ordering::Equal && value_cmp(
            x[i as int].1,
            y[i as int].1,
        ) == Ordering::Equal {
            lemma_entries_flip(x, y, i + 1);
        }
    }
}

proof fn lemma_fields_flip(x: Seq<(u8, ValueView)>, y: Seq<(u8, ValueView)>, i: nat)
    ensures
        cmp_fields(y, x, i) == flip(cmp_fields(x, y, i)),
    decreases x, x.len() - i,
{
    if i < x.len() && i < y.len() && x[i as int].0 == y[i as int].0 {
        lemma_cmp_flip(x[i as int].1, y[i as int].1);
        if value_cmp(x[i as int].1, y[i as int].1) == Ordering::Equal {
            lemma_fields_flip(x, y, i + 1);
        }
    }
}

/// Whether the keys of `xs` ascend: each is below the next in the value order.
pub open spec fn keys_ordered(xs: Seq<(ValueView, ValueView)>) -> bool {
    forall|i: int| 0 <= i < xs.len() - 1 ==> #[trigger] value_cmp(xs[i].0, xs[i + 1].0) == Ordering::Less
}

/// Whether the tags of `xs` strictly ascend.
pub open spec fn tags_ordered(xs: Seq<(u8, ValueView)>) -> bool {
    forall|i: int, j: int| 0 <= i < j < xs.len() ==> (#[trigger] xs[i]).0 < (#[trigger] xs[j]).0
}

/// The form that decoding gives: in every map, each key below the next; in every struct,
/// tags strictly ascending.
#[verifier::opaque]
pub open spec fn ordered(v: ValueView) -> bool
    decreases v,
{
    match v {
        ValueView::List(xs) => forall|i: int| 0 <= i < xs.len() ==> ordered(#[trigger] xs[i]),
        ValueView::Mapping(xs) => {
            &&& forall|i: int|
                0 <= i < xs.len() ==> ordered(#[trigger] xs[i].0) && ordered(xs[i].1)
            &&& keys_ordered(xs)
        },
        ValueView::Object(xs) => {
            &&& forall|i: int| 0 <= i < xs.len() ==> ordered(#[trigger] xs[i].1)
            &&& tags_ordered(xs)
        },
        _ => true,
    }
}

/// Whether every key and value of `xs` is ordered.
pub open spec fn entries_ordered(xs: Seq<(ValueView, ValueView)>) -> bool {
    forall|i: int| 0 <= i < xs.len() ==> ordered(#[trigger] xs[i].0) && ordered(xs[i].1)
}

proof fn lemma_prepend_entry(e: (ValueView, ValueView), m: Seq<(ValueView, ValueView)>)
    requires
        keys_ordered(m),
        entries_ordered(m),
        ordered(e.0),
        ordered(e.1),
        m.len() > 0 ==> value_cmp(e.0, m[0].0) == Ordering::Less,
    ensures
        keys_ordered(seq![e] + m),
        entries_ordered(seq![e] + m),
{
    let r = seq![e] + m;
    assert forall|i: int| 0 <= i < r.len() - 1 implies #[trigger] value_cmp(r[i].0, r[i + 1].0)
        == Ordering::Less by {
        if i > 0 {
            let j = i - 1;
            assert(r[i] == m[j] && r[i + 1] == m[j + 1]);
            assert(value_cmp(m[j].0, m[j + 1].0) == Ordering::Less);
        }
    }
    assert forall|i: int| 0 <= i < r.len() implies ordered(#[trigger] r[i].0) && ordered(
        r[i].1,
    ) by {
        if i > 0 {
            assert(r[i] == m[i - 1]);
        }
    }
}

proof fn lemma_tail_entries(acc: Seq<(ValueView, ValueView)>)
    requires
        acc.len() > 0,
        keys_ordered(acc),
        entries_ordered(acc),
    ensures
        keys_ordered(acc.drop_first()),
        entries_ordered(acc.drop_first()),
        acc.len() > 1 ==> value_cmp(acc[0].0, acc.drop_first()[0].0) == Ordering::Less,
{
    let d = acc.drop_first();
    assert forall|i: int| 0 <= i < d.len() - 1 implies #[trigger] value_cmp(d[i].0, d[i + 1].0)
        == Ordering::Less by {
        assert(d[i] == acc[i + 1] && d[i + 1] == acc[i + 2]);
    }
    assert forall|i: int| 0 <= i < d.len() implies ordered(#[trigger] d[i].0) && ordered(
        d[i].1,
    ) by {
        assert(d[i] == acc[i + 1]);
    }
    if acc.len() > 1 {
        assert(d[0] == acc[1]);
    }
}

proof fn lemma_map_insert_ordered(acc: Seq<(ValueView, ValueView)>, k: ValueView, v: ValueView)
    requires
        keys_ordered(acc),
        entries_ordered(acc),
        ordered(k),
        ordered(v),
    ensures
        keys_ordered(map_insert(acc, k, v)),
        entries_ordered(map_insert(acc, k, v)),
        map_insert(acc, k, v).len() > 0,
        map_insert(acc, k, v)[0].0 == k || (acc.len() > 0 && map_insert(acc, k, v)[0].0
            == acc[0].0),
    decreases acc.len(),
{
    if acc.len() == 0 {
        lemma_prepend_entry((k, v), Seq::empty());
        assert(seq![(k, v)] + Seq::<(ValueView, ValueView)>::empty() =~= seq![(k, v)]);
    } else {
        let d = acc.drop_first();
        let c = value_cmp(acc[0].0, k);
        lemma_cmp_flip(acc[0].0, k);
        lemma_tail_entries(acc);
        if c == Ordering::Less {
            lemma_map_insert_ordered(d, k, v);
            let m = map_insert(d, k, v);
            assert(map_insert(acc, k, v) == seq![acc[0]] + m);
            lemma_prepend_entry(acc[0], m);
        } else if c == Ordering::Equal {
            assert(map_insert(acc, k, v) == seq![(acc[0].0, v)] + d);
            lemma_prepend_entry((acc[0].0, v), d);
        } else {
            assert(map_insert(acc, k, v) == seq![(k, v)] + acc);
            lemma_prepend_entry((k, v), acc);
        }
    }
}

proof fn lemma_field_insert_ordered(acc: Seq<(u8, ValueView)>, t: u8, v: ValueView)
    requires
        tags_ordered(acc),
        forall|i: int| 0 <= i < acc.len() ==> ordered(#[trigger] acc[i].1),
        ordered(v),
    ensures
        tags_ordered(field_insert(acc, t, v)),
        forall|i: int|
            0 <= i < field_insert(acc, t, v).len() ==> ordered(#[trigger] field_insert(acc, t, v)[i].1),
        forall|i: int|
            0 <= i < field_insert(acc, t, v).len() ==> (#[trigger] field_insert(acc, t, v)[i]).0 == t
                || exists|j: int| 0 <= j < acc.len() && acc[j].0 == field_insert(acc, t, v)[i].0,
    decreases acc.len(),
{
    let r = field_insert(acc, t, v);
    if acc.len() > 0 {
        let d = acc.drop_first();
        if acc[0].0 < t {
            assert forall|i: int, j: int| 0 <= i < j < d.len() implies (#[trigger] d[i]).0 < (
            #[trigger] d[j]).0 by {
                assert(d[i] == acc[i + 1] && d[j] == acc[j + 1]);
            }
            lemma_field_insert_ordered(d, t, v);
            let m = field_insert(d, t, v);
            assert(r == seq![acc[0]] + m);
            assert forall|i: int| 0 <= i < r.len() implies (#[trigger] r[i]).0 == t || exists|j: int|
                0 <= j < acc.len() && acc[j].0 == r[i].0 by {
                if i > 0 && r[i].0 != t {
                    assert(r[i] == m[i - 1]);
                    let j = choose|j: int| 0 <= j < d.len() && d[j].0 == m[i - 1].0;
                    assert(acc[j + 1] == d[j]);
                } else if i == 0 {
                    assert(acc[0].0 == r[0].0);
                }
            }
            assert forall|i: int, j: int| 0 <= i < j < r.len() implies (#[trigger] r[i]).0 < (
            #[trigger] r[j]).0 by {
                if i > 0 {
                    assert(r[i] == m[i - 1] && r[j] == m[j - 1]);
                } else {
                    assert(r[j] == m[j - 1]);
                    if m[j - 1].0 != t {
                        let q = choose|q: int| 0 <= q < d.len() && d[q].0 == m[j - 1].0;
                        assert(d[q] == acc[q + 1]);
                    }
                }
            }
            assert forall|i: int| 0 <= i < r.len() implies ordered(#[trigger] r[i].1) by {
                if i > 0 {
                    assert(r[i] == m[i - 1]);
                }
            }
        } else if acc[0].0 == t {
            assert forall|i: int, j: int| 0 <= i < j < r.len() implies (#[trigger] r[i]).0 < (
            #[trigger] r[j]).0 by {
                assert(r[i].0 == acc[i].0 && r[j].0 == acc[j].0);
            }
            assert forall|i: int| 0 <= i < r.len() implies (#[trigger] r[i]).0 == t || exists|j: int|
                0 <= j < acc.len() && acc[j].0 == r[i].0 by {
                assert(r[i].0 == acc[i].0);
            }
            assert forall|i: int| 0 <= i < r.len() implies ordered(#[trigger] r[i].1) by {
                if i > 0 {
                    assert(r[i] == acc[i]);
                }
            }
        } else {
            assert forall|i: int, j: int| 0 <= i < j < r.len() implies (#[trigger] r[i]).0 < (
            #[trigger] r[j]).0 by {
                if i > 0 {
                    assert(r[i] == acc[i - 1] && r[j] == acc[j - 1]);
                } else {
                    assert(r[j] == acc[j - 1]);
                    assert(acc[0].0 <= acc[j - 1].0);
                }
            }
            assert forall|i: int| 0 <= i < r.len() implies (#[trigger] r[i]).0 == t || exists|j: int|
                0 <= j < acc.len() && acc[j].0 == r[i].0 by {
                if i > 0 {
                    assert(r[i] == acc[i - 1]);
                }
            }
            assert forall|i: int| 0 <= i < r.len() implies ordered(#[trigger] r[i].1) by {
                if i > 0 {
                    assert(r[i] == acc[i - 1]);
                }
            }
        }
    }
}

/// Decoding gives ordered values: in every map each key is below the next in the value
/// order, and in every struct the tags strictly ascend.
pub proof fn lemma_decoded_ordered(s: Seq<u8>)
    requires
        parse_value(s) is Ok,
    ensures
        ordered(parse_value(s)->Ok_0.1),
    decreases s.len(), 0int, 0int,
{
    reveal(ordered);
    let (_tag, t, h) = parse_head(s)->Ok_0;
    if t == JceType::List {
        let (n, k) = parse_len(s, t)->Ok_0;
        lemma_items_ordered(s.skip(k as int), n, Seq::empty());
    } else if t == JceType::Mapping {
        let (n, k) = parse_len(s, t)->Ok_0;
        lemma_entries_ordered(s.skip(k as int), n, Seq::empty());
    } else if t == JceType::StructBegin {
        lemma_fields_ordered(s.skip(h as int), Seq::empty());
    }
}

proof fn lemma_items_ordered(s: Seq<u8>, n: nat, acc: Seq<ValueView>)
    requires
        parse_items(s, n, acc) is Ok,
        forall|i: int| 0 <= i < acc.len() ==> ordered(#[trigger] acc[i]),
    ensures
        forall|i: int|
            0 <= i < parse_items(s, n, acc)->Ok_0.0.len() ==> ordered(
                #[trigger] parse_items(s, n, acc)->Ok_0.0[i],
            ),
    decreases s.len(), 1int, n,
{
    if n > 0 {
        lemma_value_prefix(s, Seq::empty());
        lemma_decoded_ordered(s);
        let (_t, v, rest) = parse_value(s)->Ok_0;
        let acc2 = acc.push(v);
        assert forall|i: int| 0 <= i < acc2.len() implies ordered(#[trigger] acc2[i]) by {
            if i < acc.len() {
                assert(acc2[i] == acc[i]);
            }
        }
        lemma_items_ordered(rest, (n - 1) as nat, acc2);
    }
}

proof fn lemma_entries_ordered(s: Seq<u8>, n: nat, acc: Seq<(ValueView, ValueView)>)
    requires
        parse_entries(s, n, acc) is Ok,
        keys_ordered(acc),
        entries_ordered(acc),
    ensures
        keys_ordered(parse_entries(s, n, acc)->Ok_0.0),
        entries_ordered(parse_entries(s, n, acc)->Ok_0.0),
    decreases s.len(), 1int, n,
{
    if n > 0 {
        lemma_value_prefix(s, Seq::empty());
        lemma_decoded_ordered(s);
        let (_t1, k, r1) = parse_value(s)->Ok_0;
        lemma_value_prefix(r1, Seq::empty());
        lemma_decoded_ordered(r1);
        let (_t2, v, r2) = parse_value(r1)->Ok_0;
        lemma_map_insert_ordered(acc, k, v);
        lemma_entries_ordered(r2, (n - 1) as nat, map_insert(acc, k, v));
    }
}

proof fn lemma_fields_ordered(s: Seq<u8>, acc: Seq<(u8, ValueView)>)
    requires
        parse_fields(s, acc) is Ok,
        tags_ordered(acc),
        forall|i: int| 0 <= i < acc.len() ==> ordered(#[trigger] acc[i].1),
    ensures
        tags_ordered(parse_fields(s, acc)->Ok_0.0),
        forall|i: int|
            0 <= i < parse_fields(s, acc)->Ok_0.0.len() ==> ordered(
                #[trigger] parse_fields(s, acc)->Ok_0.0[i].1,
            ),
    decreases s.len(), 1int, 0int,
{
    let (tag, t, h) = parse_head(s)->Ok_0;
    if t != JceType::StructEnd {
        lemma_value_prefix(s, Seq::empty());
        lemma_decoded_ordered(s);
        let (_t, v, rest) = parse_value(s)->Ok_0;
        lemma_field_insert_ordered(acc, tag, v);
        lemma_fields_ordered(rest, field_insert(acc, tag, v));
    }
}

proof fn lemma_bytes_eq(a: Seq<u8>, b: Seq<u8>, i: nat)
    requires
        i <= a.len(),
        i <= b.len(),
        cmp_bytes(a, b, i) == Ordering::Equal,
    ensures
        a.len() == b.len(),
        forall|j: int| i <= j < a.len() ==> a[j] == b[j],
    decreases a.len() - i,
{
    if i < a.len() && i < b.len() {
        lemma_bytes_eq(a, b, i + 1);
    }
}

proof fn lemma_bytes_trans(a: Seq<u8>, b: Seq<u8>, c: Seq<u8>, i: nat)
    requires
        cmp_bytes(a, b, i) == Ordering::Less,
        cmp_bytes(b, c, i) == Ordering::Less,
    ensures
        cmp_bytes(a, c, i) == Ordering::Less,
    decreases a.len() - i,
{
    if i < a.len() && i < b.len() && i < c.len() && a[i as int] == b[i as int] && b[i as int]
        == c[i as int] {
        lemma_bytes_trans(a, b, c, i + 1);
    }
}

/// Values that compare equal are the same value.
pub proof fn lemma_cmp_equal(a: ValueView, b: ValueView)
    requires
        value_cmp(a, b) == Ordering::Equal,
    ensures
        a == b,
    decreases a, 0int,
{
    match (a, b) {
        (ValueView::Str(x), ValueView::Str(y)) => {
            let ex = vstd::utf8::encode_utf8(x);
            let ey = vstd::utf8::encode_utf8(y);
            lemma_bytes_eq(ex, ey, 0);
            assert(ex =~= ey);
            vstd::utf8::encode_utf8_decode_utf8(x);
            vstd::utf8::encode_utf8_decode_utf8(y);
        },
        (ValueView::Bytes(x), ValueView::Bytes(y)) => {
            lemma_bytes_eq(x, y, 0);
            assert(x =~= y);
        },
        (ValueView::List(x), ValueView::List(y)) => {
            lemma_list_equal(x, y, 0);
            assert(x =~= y);
        },
        (ValueView::Mapping(x), ValueView::Mapping(y)) => {
            lemma_entries_equal(x, y, 0);
            assert(x =~= y);
        },
        (ValueView::Object(x), ValueView::Object(y)) => {
            lemma_fields_equal(x, y, 0);
            assert(x =~= y);
        },
        _ => {},
    }
}

proof fn lemma_list_equal(x: Seq<ValueView>, y: Seq<ValueView>, i: nat)
    requires
        i <= x.len(),
        i <= y.len(),
        cmp_list(x, y, i) == Ordering::Equal,
    ensures
        x.len() == y.len(),
        forall|j: int| i <= j < x.len() ==> x[j] == y[j],
    decreases x, x.len() - i,
{
    if i < x.len() && i < y.len() {
        lemma_cmp_equal(x[i as int], y[i as int]);
        lemma_list_equal(x, y, i + 1);
    }
}

proof fn lemma_entries_equal(
    x: Seq<(ValueView, ValueView)>,
    y: Seq<(ValueView, ValueView)>,
    i: nat,
)
    requires
        i <= x.len(),
        i <= y.len(),
        cmp_entries(x, y, i) == Ordering::Equal,
    ensures
        x.len() == y.len(),
        forall|j: int| i <= j < x.len() ==> x[j] == y[j],
    decreases x, x.len() - i,
{
    if i < x.len() && i < y.len() {
        lemma_cmp_equal(x[i as int].0, y[i as int].0);
        lemma_cmp_equal(x[i as int].1, y[i as int].1);
        lemma_entries_equal(x, y, i + 1);
    }
}

proof fn lemma_fields_equal(x: Seq<(u8, ValueView)>, y: Seq<(u8, ValueView)>, i: nat)
    requires
        i <= x.len(),
        i <= y.len(),
        cmp_fields(x, y, i) == Ordering::Equal,
    ensures
        x.len() == y.len(),
        forall|j: int| i <= j < x.len() ==> x[j] == y[j],
    decreases x, x.len() - i,
{
    if i < x.len() && i < y.len() {
        lemma_cmp_equal(x[i as int].1, y[i as int].1);
        lemma_fields_equal(x, y, i + 1);
    }
}

/// The value order is transitive.
pub proof fn lemma_cmp_trans(a: ValueView, b: ValueView, c: ValueView)
    requires
        value_cmp(a, b) == Ordering::Less,
        value_cmp(b, c) == Ordering::Less,
    ensures
        value_cmp(a, c) == Ordering::Less,
    decreases a, 0int,
{
    if rank(a) == rank(b) && rank(b) == rank(c) {
        match (a, b, c) {
            (ValueView::Str(x), ValueView::Str(y), ValueView::Str(z)) => lemma_bytes_trans(
                vstd::utf8::encode_utf8(x),
                vstd::utf8::encode_utf8(y),
                vstd::utf8::encode_utf8(z),
                0,
            ),
            (ValueView::Bytes(x), ValueView::Bytes(y), ValueView::Bytes(z)) => lemma_bytes_trans(
                x,
                y,
                z,
                0,
            ),
            (ValueView::List(x), ValueView::List(y), ValueView::List(z)) => lemma_list_trans(
                x,
                y,
                z,
                0,
            ),
            (ValueView::Mapping(x), ValueView::Mapping(y), ValueView::Mapping(z)) => lemma_entries_trans(
                x,
                y,
                z,
                0,
            ),
            (ValueView::Object(x), ValueView::Object(y), ValueView::Object(z)) => lemma_fields_trans(
                x,
                y,
                z,
                0,
            ),
            _ => {},
        }
    }
}

/// Chains two comparisons of which each is `Less` or `Equal`, at least one `Less`.
proof fn lemma_cmp_chain(a: ValueView, b: ValueView, c: ValueView)
    requires
        value_cmp(a, b) != Ordering::Greater,
        value_cmp(b, c) != Ordering::Greater,
        value_cmp(a, b) == Ordering::Less || value_cmp(b, c) == Ordering::Less,
    ensures
        value_cmp(a, c) == Ordering::Less,
    decreases a, 1int,
{
    if value_cmp(a, b) == Ordering::Equal {
        lemma_cmp_equal(a, b);
    } else if value_cmp(b, c) == Ordering::Equal {
        lemma_cmp_equal(b, c);
    } else {
        lemma_cmp_trans(a, b, c);
    }
}

proof fn lemma_list_trans(x: Seq<ValueView>, y: Seq<ValueView>, z: Seq<ValueView>, i: nat)
    requires
        cmp_list(x, y, i) == Ordering::Less,
        cmp_list(y, z, i) == Ordering::Less,
    ensures
        cmp_list(x, z, i) == Ordering::Less,
    decreases x, x.len() - i,
{
    if i < x.len() && i < y.len() && i < z.len() {
        let (p, q, r) = (x[i as int], y[i as int], z[i as int]);
        let c1 = value_cmp(p, q);
        let c2 = value_cmp(q, r);
        if c1 == Ordering::Equal && c2 == Ordering::Equal {
            lemma_cmp_equal(p, q);
            lemma_cmp_equal(q, r);
            lemma_list_trans(x, y, z, i + 1);
        } else {
            lemma_cmp_chain(p, q, r);
        }
    }
}

proof fn lemma_entries_trans(
    x: Seq<(ValueView, ValueView)>,
    y: Seq<(ValueView, ValueView)>,
    z: Seq<(ValueView, ValueView)>,
    i: nat,
)
    requires
        cmp_entries(x, y, i) == Ordering::Less,
        cmp_entries(y, z, i) == Ordering::Less,
    ensures
        cmp_entries(x, z, i) == Ordering::Less,
    decreases x, x.len() - i,
{
    if i < x.len() && i < y.len() && i < z.len() {
        let (p, q, r) = (x[i as int], y[i as int], z[i as int]);
        let k1 = value_cmp(p.0, q.0);
        let k2 = value_cmp(q.0, r.0);
        if k1 == Ordering::Equal && k2 == Ordering::Equal {
            lemma_cmp_equal(p.0, q.0);
            lemma_cmp_equal(q.0, r.0);
            let v1 = value_cmp(p.1, q.1);
            let v2 = value_cmp(q.1, r.1);
            if v1 == Ordering::Equal && v2 == Ordering::Equal {
                lemma_cmp_equal(p.1, q.1);
                lemma_cmp_equal(q.1, r.1);
                lemma_entries_trans(x, y, z, i + 1);
            } else {
                lemma_cmp_chain(p.1, q.1, r.1);
            }
        } else {
            if k1 == Ordering::Equal {
                lemma_cmp_equal(p.0, q.0);
            } else if k2 == Ordering::Equal {
                lemma_cmp_equal(q.0, r.0);
            } else {
                lemma_cmp_chain(p.0, q.0, r.0);
            }
        }
    }
}

proof fn lemma_fields_trans(
    x: Seq<(u8, ValueView)>,
    y: Seq<(u8, ValueView)>,
    z: Seq<(u8, ValueView)>,
    i: nat,
)
    requires
        cmp_fields(x, y, i) == Ordering::Less,
        cmp_fields(y, z, i) == Ordering::Less,
    ensures
        cmp_fields(x, z, i) == Ordering::Less,
    decreases x, x.len() - i,
{
    if i < x.len() && i < y.len() && i < z.len() && x[i as int].0 == y[i as int].0 && y[i as int].0
        == z[i as int].0 {
        let (p, q, r) = (x[i as int].1, y[i as int].1, z[i as int].1);
        if value_cmp(p, q) == Ordering::Equal && value_cmp(q, r) == Ordering::Equal {
            lemma_cmp_equal(p, q);
            lemma_cmp_equal(q, r);
            lemma_fields_trans(x, y, z, i + 1);
        } else {
            lemma_cmp_chain(p, q, r);
        }
    }
}

} // verus!
