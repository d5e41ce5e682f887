//! The byte layout of the wire format, as spec functions.
use vstd::prelude::*;
use vstd::utf8::{decode_utf8, valid_utf8};

use crate::error::Error;
use crate::types::JceType;

verus! {

/// `256` to the power `n`.
pub open spec fn pow256(n: nat) -> nat
    decreases n,
{
    if n == 0 {
        1
    } else {
        256 * pow256((n - 1) as nat)
    }
}

/// The last `n` bytes of `x` in big-endian order (that is, `x mod 256^n`).
pub open spec fn be(x: nat, n: nat) -> Seq<u8>
    decreases n,
{
    if n == 0 {
        Seq::empty()
    } else {
        be(x / 256, (n - 1) as nat).push((x % 256) as u8)
    }
}

/// The number that the big-endian bytes `s` spell.
pub open spec fn from_be(s: Seq<u8>) -> nat
    decreases s.len(),
{
    if s.len() == 0 {
        0
    } else {
        (from_be(s.drop_last()) * 256 + s.last()) as nat
    }
}

/// Two's complement of `v` in `n` bytes, as an unsigned number.
pub open spec fn twos(v: int, n: nat) -> nat {
    if v < 0 {
        (v + pow256(n)) as nat
    } else {
        v as nat
    }
}

/// The signed number whose two's complement in `n` bytes is `x`.
pub open spec fn signed(x: nat, n: nat) -> int {
    if 2 * x >= pow256(n) {
        x - pow256(n)
    } else {
        x as int
    }
}

/// Whether `v` is representable as a signed integer of `n` bytes.
pub open spec fn fits(v: int, n: nat) -> bool {
    -pow256(n) <= 2 * v < pow256(n)
}

/// The header of a value of type `t` under `tag`.
pub open spec fn head(tag: u8, t: JceType) -> Seq<u8> {
    if tag < 15 {
        seq![(tag * 16 + t.spec_code()) as u8]
    } else {
        seq![(0xf0 + t.spec_code()) as u8, tag]
    }
}

/// The payload width in bytes of the fixed-width types (zero for the others).
pub open spec fn width(t: JceType) -> nat {
    match t {
        JceType::I8 => 1,
        JceType::I16 => 2,
        JceType::I32 => 4,
        JceType::I64 => 8,
        JceType::F32 => 4,
        JceType::F64 => 8,
        _ => 0,
    }
}

/// Whether `t` is one of the integer types or `Zero`.
pub open spec fn is_int_type(t: JceType) -> bool {
    t == JceType::Zero || t == JceType::I8 || t == JceType::I16 || t == JceType::I32 || t
        == JceType::I64
}

/// The type that an integer is written as: the narrowest that holds it, `Zero` for `0`.
pub open spec fn int_type(v: int) -> JceType {
    if v == 0 {
        JceType::Zero
    } else if fits(v, 1) {
        JceType::I8
    } else if fits(v, 2) {
        JceType::I16
    } else if fits(v, 4) {
        JceType::I32
    } else {
        JceType::I64
    }
}

/// An integer `v` under `tag`, written in its narrowest form.
pub open spec fn enc_int(tag: u8, v: int) -> Seq<u8> {
    head(tag, int_type(v)) + be(twos(v, width(int_type(v))), width(int_type(v)))
}

/// A single-precision float with bit pattern `bits` under `tag`.
pub open spec fn enc_f32(tag: u8, bits: u32) -> Seq<u8> {
    head(tag, JceType::F32) + be(bits as nat, 4)
}

/// A double-precision float with bit pattern `bits` under `tag`.
pub open spec fn enc_f64(tag: u8, bits: u64) -> Seq<u8> {
    head(tag, JceType::F64) + be(bits as nat, 8)
}

/// The longest string payload that is written; longer strings are cut.
pub open spec fn string_max() -> nat {
    0xffff_ffff
}

/// The longest byte-string payload that is written; longer ones are cut.
pub open spec fn bytes_max() -> nat {
    0x7fff_ffff
}

/// A string with UTF-8 bytes `b` under `tag`: the empty string as a bare `Zero` header,
/// otherwise one length byte up to 255 bytes, else four, the payload cut at `string_max()`
/// bytes.
pub open spec fn enc_str(tag: u8, b: Seq<u8>) -> Seq<u8> {
    if b.len() == 0 {
        head(tag, JceType::Zero)
    } else if b.len() <= 255 {
        head(tag, JceType::String1) + seq![b.len() as u8] + b
    } else {
        let n = if b.len() <= string_max() {
            b.len()
        } else {
            string_max()
        };
        head(tag, JceType::String4) + be(n, 4) + b.take(n as int)
    }
}

/// A byte string `b` under `tag`: an inner `I8` header under tag 0, the length as a
/// narrowed integer, then the bytes, cut at `bytes_max()`.
pub open spec fn enc_bytes(tag: u8, b: Seq<u8>) -> Seq<u8> {
    let n = if b.len() <= bytes_max() {
        b.len()
    } else {
        bytes_max()
    };
    head(tag, JceType::Bytes) + head(0, JceType::I8) + enc_int(0, n as int) + b.take(n as int)
}

/// The start of a map of `len` entries under `tag`.
pub open spec fn enc_map_begin(tag: u8, len: int) -> Seq<u8> {
    head(tag, JceType::Mapping) + enc_int(0, len)
}

/// The start of a list of `len` elements under `tag`.
pub open spec fn enc_list_begin(tag: u8, len: int) -> Seq<u8> {
    head(tag, JceType::List) + enc_int(0, len)
}

/// The terminator of a struct.
pub open spec fn struct_end_bytes() -> Seq<u8> {
    head(0, JceType::StructEnd)
}

/// The type code of the header at the start of `s`.
pub open spec fn parse_type(s: Seq<u8>) -> Result<JceType, Error> {
    if s.len() == 0 {
        Err(Error::NotEnoughtBytes)
    } else {
        match JceType::spec_from_code(s[0] % 16) {
            Some(t) => Ok(t),
            None => Err(Error::UnknownJceType),
        }
    }
}

/// The header at the start of `s`: its tag, its type and its length in bytes.
pub open spec fn parse_head(s: Seq<u8>) -> Result<(u8, JceType, nat), Error> {
    match parse_type(s) {
        Err(e) => Err(e),
        Ok(t) => if s[0] / 16 != 15 {
            Ok(((s[0] / 16) as u8, t, 1))
        } else if s.len() < 2 {
            Err(Error::NotEnoughtBytes)
        } else {
            Ok((s[1], t, 2))
        },
    }
}

/// The `n` bytes of `s` at offset `at`, as a big-endian number.
pub open spec fn fixed(s: Seq<u8>, at: nat, n: nat) -> nat {
    from_be(s.subrange(at as int, (at + n) as int))
}

/// An integer of at most `max` bytes at the start of `s` (`Zero` reads as `0`): its value
/// and the number of bytes it takes.
pub open spec fn parse_int(s: Seq<u8>, max: nat) -> Result<(int, nat), Error> {
    match parse_head(s) {
        Err(e) => Err(e),
        Ok((_tag, t, h)) => if t == JceType::Zero {
            Ok((0, h))
        } else if is_int_type(t) && width(t) <= max {
            if s.len() < h + width(t) {
                Err(Error::NotEnoughtBytes)
            } else {
                Ok((signed(fixed(s, h, width(t)), width(t)), h + width(t)))
            }
        } else {
            Err(Error::WrongType)
        },
    }
}

/// A single-precision float at the start of `s` (`Zero` reads as `0.0`): its bit pattern
/// and the number of bytes it takes.
pub open spec fn parse_f32(s: Seq<u8>) -> Result<(u32, nat), Error> {
    match parse_head(s) {
        Err(e) => Err(e),
        Ok((_tag, t, h)) => if t == JceType::Zero {
            Ok((0, h))
        } else if t == JceType::F32 {
            if s.len() < h + 4 {
                Err(Error::NotEnoughtBytes)
            } else {
                Ok((fixed(s, h, 4) as u32, h + 4))
            }
        } else {
            Err(Error::WrongType)
        },
    }
}

/// A double at the start of `s` (`Zero` reads as `0.0`, a single-precision float is
/// widened): its bit pattern and the number of bytes it takes.
pub open spec fn parse_f64(s: Seq<u8>) -> Result<(u64, nat), Error> {
    match parse_head(s) {
        Err(e) => Err(e),
        Ok((_tag, t, h)) => if t == JceType::Zero {
            Ok((0, h))
        } else if t == JceType::F32 {
            if s.len() < h + 4 {
                Err(Error::NotEnoughtBytes)
            } else {
                Ok((widen_f32(fixed(s, h, 4) as u32), h + 4))
            }
        } else if t == JceType::F64 {
            if s.len() < h + 8 {
                Err(Error::NotEnoughtBytes)
            } else {
                Ok((fixed(s, h, 8) as u64, h + 8))
            }
        } else {
            Err(Error::WrongType)
        },
    }
}

/// `m` doubled until it reaches `2^23`, and how many times it was doubled.
pub open spec fn normalize(m: nat, k: nat) -> (nat, nat)
    decreases 0x100_0000 - m,
{
    if m == 0 || m >= 0x80_0000 {
        (m, k)
    } else {
        normalize(2 * m, k + 1)
    }
}

/// The bit pattern of the double with the value of the single-precision float `b`
/// (a NaN stays a NaN, made quiet, with its payload kept).
pub open spec fn widen_f32(b: u32) -> u64 {
    let sign = b as nat / 0x8000_0000;
    let e = (b as nat / 0x80_0000) % 0x100;
    let m = b as nat % 0x80_0000;
    let s64 = sign * 0x8000_0000_0000_0000;
    if e == 0xff {
        let quiet = if m == 0 || m >= 0x40_0000 {
            m
        } else {
            m + 0x40_0000
        };
        (s64 + 0x7ff * 0x10_0000_0000_0000 + quiet * 0x2000_0000) as u64
    } else if e == 0 && m == 0 {
        s64 as u64
    } else if e == 0 {
        let (mm, k) = normalize(m, 0);
        (s64 + (897 - k) * 0x10_0000_0000_0000 + (mm - 0x80_0000) * 0x2000_0000) as u64
    } else {
        (s64 + (e + 896) * 0x10_0000_0000_0000 + m * 0x2000_0000) as u64
    }
}

/// `2` to the power `n`.
pub open spec fn pow2(n: nat) -> nat
    decreases n,
{
    if n == 0 {
        1
    } else {
        2 * pow2((n - 1) as nat)
    }
}

/// The string payload of a header of type `t` that ends at `h`: the bytes of the string
/// and the offset where it ends.
pub open spec fn string_payload(s: Seq<u8>, t: JceType, h: nat) -> Result<(Seq<u8>, nat), Error> {
    let lw: nat = if t == JceType::String1 { 1 } else { 4 };
    if s.len() < h + lw {
        Err(Error::NotEnoughtBytes)
    } else {
        let n = fixed(s, h, lw);
        if s.len() < h + lw + n {
            Err(Error::NotEnoughtBytes)
        } else {
            Ok((s.subrange((h + lw) as int, (h + lw + n) as int), h + lw + n))
        }
    }
}

/// A string at the start of `s` whose header may be `String1` (when `small`) or `String4`
/// (when `big`), or `Zero` for the empty string: its bytes and the bytes it takes.
pub open spec fn parse_str_bytes(s: Seq<u8>, small: bool, big: bool) -> Result<(Seq<u8>, nat), Error> {
    match parse_head(s) {
        Err(e) => Err(e),
        Ok((_tag, t, h)) => if t == JceType::Zero {
            Ok((Seq::empty(), h))
        } else if (small && t == JceType::String1) || (big && t == JceType::String4) {
            string_payload(s, t, h)
        } else {
            Err(Error::WrongType)
        },
    }
}

/// As `parse_str_bytes`, with the bytes decoded as UTF-8.
pub open spec fn parse_str(s: Seq<u8>, small: bool, big: bool) -> Result<(Seq<char>, nat), Error> {
    match parse_str_bytes(s, small, big) {
        Err(e) => Err(e),
        Ok((b, k)) => if valid_utf8(b) {
            Ok((decode_utf8(b), k))
        } else {
            Err(Error::StringIsNotUtf8)
        },
    }
}

/// The length that follows a header of type `t` (a map or a list) at the start of `s`, or
/// `0` for `Zero`: the length and the bytes taken.
pub open spec fn parse_len(s: Seq<u8>, t: JceType) -> Result<(nat, nat), Error> {
    match parse_head(s) {
        Err(e) => Err(e),
        Ok((_tag, tp, h)) => if tp == JceType::Zero {
            Ok((0, h))
        } else if tp == t {
            match parse_int(s.skip(h as int), 4) {
                Err(e) => Err(e),
                Ok((n, k)) => if n < 0 {
                    Err(Error::WrongLength)
                } else {
                    Ok((n as nat, h + k))
                },
            }
        } else {
            Err(Error::WrongType)
        },
    }
}

/// A header of type `t` with no payload at the start of `s`: the bytes it takes.
pub open spec fn parse_marker(s: Seq<u8>, t: JceType) -> Result<nat, Error> {
    match parse_head(s) {
        Err(e) => Err(e),
        Ok((_tag, tp, h)) => if tp == t {
            Ok(h)
        } else {
            Err(Error::WrongType)
        },
    }
}

/// What follows the header of a byte string at the start of `s`: an inner header of type
/// `I8`, the length as an integer of at most four bytes, then the bytes. Returns the bytes
/// and the bytes taken.
pub open spec fn parse_bytes_payload(s: Seq<u8>) -> Result<(Seq<u8>, nat), Error> {
    match parse_head(s) {
        Err(e) => Err(e),
        Ok((_t2, t2, h2)) => if t2 != JceType::I8 {
            Err(Error::WrongType)
        } else {
            match parse_int(s.skip(h2 as int), 4) {
                Err(e) => Err(e),
                Ok((n, k)) => if n < 0 {
                    Err(Error::WrongLength)
                } else if s.len() < h2 + k + n {
                    Err(Error::NotEnoughtBytes)
                } else {
                    Ok((s.subrange((h2 + k) as int, h2 + k + n), (h2 + k + n) as nat))
                },
            }
        },
    }
}

/// A byte string at the start of `s` (`Zero` reads as empty): its bytes and the bytes it
/// takes.
pub open spec fn parse_bytes(s: Seq<u8>) -> Result<(Seq<u8>, nat), Error> {
    match parse_head(s) {
        Err(e) => Err(e),
        Ok((_tag, t, h)) => if t == JceType::Zero {
            Ok((Seq::empty(), h))
        } else if t == JceType::Bytes {
            match parse_bytes_payload(s.skip(h as int)) {
                Err(e) => Err(e),
                Ok((b, k)) => Ok((b, h + k)),
            }
        } else {
            Err(Error::WrongType)
        },
    }
}

/// The bytes that a flat value of type `t` (anything but a map, a list or a struct begin)
/// at the start of `s` takes, read as the typed reader of `t` reads it.
pub open spec fn skip_flat(s: Seq<u8>, t: JceType) -> Result<nat, Error> {
    if is_int_type(t) && t != JceType::Zero {
        match parse_int(s, width(t)) {
            Err(e) => Err(e),
            Ok((_v, k)) => Ok(k),
        }
    } else if t == JceType::F32 {
        match parse_f32(s) {
            Err(e) => Err(e),
            Ok((_v, k)) => Ok(k),
        }
    } else if t == JceType::F64 {
        match parse_f64(s) {
            Err(e) => Err(e),
            Ok((_v, k)) => Ok(k),
        }
    } else if t == JceType::String1 || t == JceType::String4 {
        match parse_str(s, t == JceType::String1, t == JceType::String4) {
            Err(e) => Err(e),
            Ok((_v, k)) => Ok(k),
        }
    } else if t == JceType::Bytes {
        match parse_bytes(s) {
            Err(e) => Err(e),
            Ok((_v, k)) => Ok(k),
        }
    } else {
        parse_marker(s, t)
    }
}

/// What remains of `s` after one value of any type, nested values included.
pub open spec fn skip_value(s: Seq<u8>) -> Result<Seq<u8>, Error>
    decreases s.len(), 0nat, 0nat,
{
    match parse_type(s) {
        Err(e) => Err(e),
        Ok(t) => if t == JceType::Mapping || t == JceType::List {
            match parse_len(s, t) {
                Err(e) => Err(e),
                Ok((n, k)) => if 0 < k <= s.len() {
                    skip_values(
                        s.skip(k as int),
                        if t == JceType::Mapping {
                            2 * n
                        } else {
                            n
                        },
                    )
                } else {
                    Err(Error::NotEnoughtBytes)
                },
            }
        } else if t == JceType::StructBegin {
            match parse_marker(s, t) {
                Err(e) => Err(e),
                Ok(k) => if 0 < k <= s.len() {
                    skip_fields(s.skip(k as int))
                } else {
                    Err(Error::NotEnoughtBytes)
                },
            }
        } else {
            match skip_flat(s, t) {
                Err(e) => Err(e),
                Ok(k) => Ok(s.skip(k as int)),
            }
        },
    }
}

/// What remains of `s` after `n` values one after another.
pub open spec fn skip_values(s: Seq<u8>, n: nat) -> Result<Seq<u8>, Error>
    decreases s.len(), 1nat, n,
{
    if n == 0 {
        Ok(s)
    } else {
        match skip_value(s) {
            Err(e) => Err(e),
            Ok(rest) => if rest.len() <= s.len() {
                skip_values(rest, (n - 1) as nat)
            } else {
                Err(Error::NotEnoughtBytes)
            },
        }
    }
}

/// What remains of `s` after the fields of a struct and its terminator.
pub open spec fn skip_fields(s: Seq<u8>) -> Result<Seq<u8>, Error>
    decreases s.len(), 1nat, 0nat,
{
    match parse_type(s) {
        Err(e) => Err(e),
        Ok(t) => if t == JceType::StructEnd {
            match parse_marker(s, t) {
                Err(e) => Err(e),
                Ok(k) => Ok(s.skip(k as int)),
            }
        } else {
            match skip_value(s) {
                Err(e) => Err(e),
                Ok(rest) => if rest.len() < s.len() {
                    skip_fields(rest)
                } else {
                    Err(Error::NotEnoughtBytes)
                },
            }
        },
    }
}

/// `be(x, n)` has `n` bytes.
pub proof fn lemma_be_len(x: nat, n: nat)
    ensures
        be(x, n).len() == n,
    decreases n,
{
    if n > 0 {
        lemma_be_len(x / 256, (n - 1) as nat);
    }
}

/// Reading back `n` big-endian bytes of `x` gives `x`, when `x` fits in them.
pub proof fn lemma_from_be_be(x: nat, n: nat)
    requires
        x < pow256(n),
    ensures
        from_be(be(x, n)) == x,
    decreases n,
{
    if n > 0 {
        let q = x / 256;
        let r = x % 256;
        assert(x == q * 256 + r && 0 <= r < 256);
        assert(q < pow256((n - 1) as nat)) by (nonlinear_arith)
            requires
                x < 256 * pow256((n - 1) as nat),
                x == q * 256 + r,
                0 <= r,
        ;
        lemma_from_be_be(q, (n - 1) as nat);
        let s = be(q, (n - 1) as nat).push(r as u8);
        assert(s.drop_last() =~= be(q, (n - 1) as nat));
    }
}

/// The header of `(tag, t)` reads back as `(tag, t)`, whatever follows it.
pub proof fn lemma_head(tag: u8, t: JceType, rest: Seq<u8>)
    ensures
        parse_head(head(tag, t) + rest) == Ok::<(u8, JceType, nat), Error>(
            (tag, t, head(tag, t).len()),
        ),
        parse_type(head(tag, t) + rest) == Ok::<JceType, Error>(t),
        1 <= head(tag, t).len() <= 2,
{
    let s = head(tag, t) + rest;
    let c = t.spec_code();
    assert(JceType::spec_from_code(c) == Some(t));
    if tag < 15 {
        assert(s[0] == (tag * 16 + c) as u8);
        assert(s[0] % 16 == c);
        assert(s[0] / 16 == tag);
    } else {
        assert(s[0] == (0xf0 + c) as u8);
        assert(s[1] == tag);
        assert(s[0] % 16 == c);
        assert(s[0] / 16 == 15);
    }
}

/// Two's complement in `n` bytes is undone by `signed`, for numbers that fit.
pub proof fn lemma_signed_twos(v: int, n: nat)
    requires
        fits(v, n),
    ensures
        signed(twos(v, n), n) == v,
        twos(v, n) < pow256(n),
{
}

/// Whether `t` is one of the four integer widths.
pub open spec fn is_width_type(t: JceType) -> bool {
    t == JceType::I8 || t == JceType::I16 || t == JceType::I32 || t == JceType::I64
}

/// An integer written as type `t` (any width that holds it, not only the narrowest)
/// reads back as itself through a reader of width `max` no narrower than `t`.
pub proof fn lemma_read_width(tag: u8, t: JceType, v: int, max: nat, rest: Seq<u8>)
    requires
        is_width_type(t),
        fits(v, width(t)),
        width(t) <= max,
    ensures
        parse_int(head(tag, t) + be(twos(v, width(t)), width(t)) + rest, max) == Ok::<
            (int, nat),
            Error,
        >((v, head(tag, t).len() + width(t))),
{
    lemma_pow256_values();
    let w = width(t);
    let b = be(twos(v, w), w);
    let s = head(tag, t) + b + rest;
    lemma_head(tag, t, b + rest);
    assert(head(tag, t) + (b + rest) =~= s);
    lemma_be_len(twos(v, w), w);
    lemma_signed_twos(v, w);
    lemma_from_be_be(twos(v, w), w);
    let h = head(tag, t).len();
    assert(s.subrange(h as int, (h + w) as int) =~= b);
}

/// Integers are written in the narrowest form: `Zero` for `0`, otherwise the narrowest of
/// 1, 2, 4 and 8 bytes that holds the number.
pub proof fn lemma_narrowest(v: int)
    requires
        fits(v, 8),
    ensures
        (v == 0) == (int_type(v) == JceType::Zero),
        v != 0 ==> is_width_type(int_type(v)) && fits(v, width(int_type(v))),
        forall|w: nat|
            (w == 1 || w == 2 || w == 4 || w == 8) && w < width(int_type(v)) ==> !fits(v, w),
{
    lemma_pow256_values();
}

/// An integer read back from its narrowest form, by any reader wide enough for it, is
/// itself.
pub proof fn lemma_int_round_trip(tag: u8, v: int, max: nat, rest: Seq<u8>)
    requires
        fits(v, 8),
        width(int_type(v)) <= max,
    ensures
        parse_int(enc_int(tag, v) + rest, max) == Ok::<(int, nat), Error>(
            (v, enc_int(tag, v).len()),
        ),
        parse_head(enc_int(tag, v) + rest) == Ok::<(u8, JceType, nat), Error>(
            (tag, int_type(v), head(tag, int_type(v)).len()),
        ),
{
    lemma_pow256_values();
    let t = int_type(v);
    lemma_be_len(twos(v, width(t)), width(t));
    lemma_head(tag, t, be(twos(v, width(t)), width(t)) + rest);
    assert(head(tag, t) + (be(twos(v, width(t)), width(t)) + rest) =~= enc_int(tag, v) + rest);
    if v == 0 {
        assert(be(twos(v, 0), 0) =~= Seq::<u8>::empty());
    } else {
        lemma_read_width(tag, t, v, max, rest);
    }
}

/// A zero integer and an absent value take the one-byte `Zero` form (two bytes for a
/// tag of 15 or more, whose header needs a tag byte).
pub proof fn lemma_zero_int(tag: u8)
    ensures
        enc_int(tag, 0) == head(tag, JceType::Zero),
        tag < 15 ==> head(tag, JceType::Zero).len() == 1,
{
    assert(be(twos(0, 0), 0) =~= Seq::<u8>::empty());
    assert(enc_int(tag, 0) =~= head(tag, JceType::Zero));
}

/// The powers of 256 that the integer widths use.
pub proof fn lemma_pow256_values()
    ensures
        pow256(0) == 1,
        pow256(1) == 0x100,
        pow256(2) == 0x1_0000,
        pow256(3) == 0x100_0000,
        pow256(4) == 0x1_0000_0000,
        pow256(5) == 0x100_0000_0000,
        pow256(6) == 0x1_0000_0000_0000,
        pow256(7) == 0x100_0000_0000_0000,
        pow256(8) == 0x1_0000_0000_0000_0000,
{
    reveal_with_fuel(pow256, 9);
}

} // verus!
