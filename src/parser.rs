//! A cursor that reads the wire format from a byte slice.
use vstd::prelude::*;

use crate::error::{Error, Result};
use crate::format::{
    fixed, from_be, lemma_pow256_values, parse_bytes, parse_bytes_payload, parse_f32, parse_f64, parse_head,
    parse_int, parse_len, parse_marker, parse_str, parse_str_bytes, parse_type, pow256, signed,
    skip_fields, skip_flat, skip_value, skip_values, string_payload, widen_f32, width, normalize,
    pow2,
};
use crate::types::JceType;
use vstd::utf8::{decode_utf8, valid_utf8};

verus! {

/// Reads values of the wire format one after another from a byte slice.
///
/// The view is what remains to be read. A read that fails leaves the cursor at an
/// unspecified place: the caller discards it.
pub struct JceParser<'de> {
    bytes: &'de [u8],
}

impl<'de> View for JceParser<'de> {
    type V = Seq<u8>;

    closed spec fn view(&self) -> Seq<u8> {
        self.bytes@
    }
}

/// Relies on `std::str::from_utf8`: it succeeds exactly when the bytes are valid UTF-8, and
/// then the string holds the characters that they encode.
#[verifier::external_body]
fn utf8_str<'a>(b: &'a [u8]) -> (r: Option<&'a str>)
    ensures
        match r {
            Some(s) => valid_utf8(b@) && s@ == decode_utf8(b@),
            None => !valid_utf8(b@),
        },
{
    std::str::from_utf8(b).ok()
}

impl<'de> JceParser<'de> {
    pub fn from_bytes(bytes: &'de [u8]) -> (r: Self)
        ensures
            r@ == bytes@,
    {
        JceParser { bytes }
    }

    /// Whether every byte has been read.
    pub fn done(&self) -> (r: bool)
        ensures
            r == (self@.len() == 0),
    {
        self.bytes.len() == 0
    }

    /// The tag of the next header, without reading it.
    pub fn pick_tag(&self) -> (r: Result<u8>)
        ensures
            r == (match parse_head(self@) {
                Ok((tag, _t, _h)) => Ok(tag),
                Err(e) => Err(e),
            }),
    {
        match self.pick_head() {
            Ok((tag, _t)) => Ok(tag),
            Err(e) => Err(e),
        }
    }

    /// The type of the next header, without reading it.
    pub fn pick_type(&self) -> (r: Result<JceType>)
        ensures
            r == parse_type(self@),
    {
        if self.bytes.len() == 0 {
            Err(Error::NotEnoughtBytes)
        } else {
            JceType::from_code(self.bytes[0] % 16)
        }
    }

    /// The tag and type of the next header, without reading it.
    pub fn pick_head(&self) -> (r: Result<(u8, JceType)>)
        ensures
            r == (match parse_head(self@) {
                Ok((tag, t, _h)) => Ok((tag, t)),
                Err(e) => Err(e),
            }),
    {
        let tp = match self.pick_type() {
            Ok(t) => t,
            Err(e) => return Err(e),
        };
        let tag = self.bytes[0] / 16;
        if tag != 15 {
            Ok((tag, tp))
        } else if self.bytes.len() < 2 {
            Err(Error::NotEnoughtBytes)
        } else {
            Ok((self.bytes[1], tp))
        }
    }

    /// Reads the next header.
    fn get_head(&mut self) -> (r: Result<(u8, JceType)>)
        ensures
            match parse_head(old(self)@) {
                Ok((tag, t, h)) => r == Ok::<(u8, JceType), Error>((tag, t)) && final(self)@
                    == old(self)@.skip(h as int),
                Err(e) => r == Err::<(u8, JceType), Error>(e),
            },
    {
        let (tag, tp) = match self.pick_head() {
            Ok(h) => h,
            Err(e) => return Err(e),
        };
        let h: usize = if self.bytes[0] / 16 != 15 {
            1
        } else {
            2
        };
        self.bytes = vstd::slice::slice_subrange(self.bytes, h, self.bytes.len());
        Ok((tag, tp))
    }

    /// Reads the next `len` bytes as they are.
    fn get_bytes(&mut self, len: usize) -> (r: Result<&'de [u8]>)
        ensures
            len <= old(self)@.len() ==> (r matches Ok(b) && b@ == old(self)@.take(len as int)
                && final(self)@ == old(self)@.skip(len as int)),
            len > old(self)@.len() ==> r == Err::<&'de [u8], Error>(Error::NotEnoughtBytes)
                && final(self)@ == old(self)@,
    {
        if len <= self.bytes.len() {
            let left = vstd::slice::slice_subrange(self.bytes, 0, len);
            self.bytes = vstd::slice::slice_subrange(self.bytes, len, self.bytes.len());
            Ok(left)
        } else {
            Err(Error::NotEnoughtBytes)
        }
    }

    /// Reads the next `n` bytes as a big-endian number.
    fn get_bytes_fixed(&mut self, n: usize) -> (r: Result<u64>)
        requires
            n <= 8,
        ensures
            n <= old(self)@.len() ==> r == Ok::<u64, Error>(fixed(old(self)@, 0, n as nat) as u64)
                && final(self)@ == old(self)@.skip(n as int) && fixed(old(self)@, 0, n as nat)
                < pow256(n as nat),
            n > old(self)@.len() ==> r == Err::<u64, Error>(Error::NotEnoughtBytes),
    {
        if n > self.bytes.len() {
            return Err(Error::NotEnoughtBytes);
        }
        proof {
            lemma_pow256_values();
        }
        let ghost s = self.bytes@;
        let mut acc: u64 = 0;
        let mut i: usize = 0;
        while i < n
            invariant
                i <= n <= 8,
                n <= s.len(),
                self.bytes@ == s,
                acc as nat == from_be(s.take(i as int)),
                acc < pow256(i as nat),
                pow256(0) == 1,
                pow256(1) == 0x100,
                pow256(2) == 0x1_0000,
                pow256(3) == 0x100_0000,
                pow256(4) == 0x1_0000_0000,
                pow256(5) == 0x100_0000_0000,
                pow256(6) == 0x1_0000_0000_0000,
                pow256(7) == 0x100_0000_0000_0000,
                pow256(8) == 0x1_0000_0000_0000_0000,
            decreases n - i,
        {
            assert(s.take(i + 1).drop_last() =~= s.take(i as int));
            assert(pow256((i + 1) as nat) == 256 * pow256(i as nat));
            acc = acc * 256 + self.bytes[i] as u64;
            i = i + 1;
        }
        assert(s.subrange(0, n as int) =~= s.take(n as int));
        self.bytes = vstd::slice::slice_subrange(self.bytes, n, self.bytes.len());
        Ok(acc)
    }
    /// Reads an integer stored in at most `max` bytes, sign-extended.
    fn read_int(&mut self, max: usize) -> (r: Result<i64>)
        requires
            max == 1 || max == 2 || max == 4 || max == 8,
        ensures
            match parse_int(old(self)@, max as nat) {
                Ok((v, k)) => r matches Ok(x) && x as int == v && final(self)@ == old(self)@.skip(
                    k as int,
                ) && -pow256(max as nat) <= 2 * v < pow256(max as nat),
                Err(e) => r == Err::<i64, Error>(e),
            },
    {
        proof {
            lemma_pow256_values();
        }
        let ghost s = self@;
        let (_tag, tp) = match self.get_head() {
            Ok(h) => h,
            Err(e) => return Err(e),
        };
        let w: usize = match tp {
            JceType::I8 => 1,
            JceType::I16 => 2,
            JceType::I32 => 4,
            JceType::I64 => 8,
            _ => 0,
        };
        if tp == JceType::Zero {
            return Ok(0);
        }
        if w == 0 || w > max {
            return Err(Error::WrongType);
        }
        let ghost h = s.len() - self@.len();
        let x = match self.get_bytes_fixed(w) {
            Ok(x) => x,
            Err(e) => return Err(e),
        };
        proof {
            assert(s.skip(h).subrange(0, w as int) =~= s.subrange(h, h + w));
            assert(self@ =~= s.skip(h + w));
        }
        let p: i128 = if w == 1 {
            0x100
        } else if w == 2 {
            0x1_0000
        } else if w == 4 {
            0x1_0000_0000
        } else {
            0x1_0000_0000_0000_0000
        };
        let xi = x as i128;
        if 2 * xi >= p {
            Ok((xi - p) as i64)
        } else {
            Ok(xi as i64)
        }
    }

    /// Reads an integer stored as `I8` (or `Zero`).
    pub fn i8(&mut self) -> (r: Result<i8>)
        ensures
            match parse_int(old(self)@, 1) {
                Ok((v, k)) => r matches Ok(x) && x as int == v && final(self)@ == old(self)@.skip(
                    k as int,
                ),
                Err(e) => r == Err::<i8, Error>(e),
            },
    {
        proof {
            lemma_pow256_values();
        }
        match self.read_int(1) {
            Ok(x) => Ok(x as i8),
            Err(e) => Err(e),
        }
    }

    /// Reads an integer stored in at most two bytes.
    pub fn i16(&mut self) -> (r: Result<i16>)
        ensures
            match parse_int(old(self)@, 2) {
                Ok((v, k)) => r matches Ok(x) && x as int == v && final(self)@ == old(self)@.skip(
                    k as int,
                ),
                Err(e) => r == Err::<i16, Error>(e),
            },
    {
        proof {
            lemma_pow256_values();
        }
        match self.read_int(2) {
            Ok(x) => Ok(x as i16),
            Err(e) => Err(e),
        }
    }

    /// Reads an integer stored in at most four bytes.
    pub fn i32(&mut self) -> (r: Result<i32>)
        ensures
            match parse_int(old(self)@, 4) {
                Ok((v, k)) => r matches Ok(x) && x as int == v && final(self)@ == old(self)@.skip(
                    k as int,
                ),
                Err(e) => r == Err::<i32, Error>(e),
            },
    {
        proof {
            lemma_pow256_values();
        }
        match self.read_int(4) {
            Ok(x) => Ok(x as i32),
            Err(e) => Err(e),
        }
    }

    /// Reads an integer stored in at most eight bytes.
    pub fn i64(&mut self) -> (r: Result<i64>)
        ensures
            match parse_int(old(self)@, 8) {
                Ok((v, k)) => r matches Ok(x) && x as int == v && final(self)@ == old(self)@.skip(
                    k as int,
                ),
                Err(e) => r == Err::<i64, Error>(e),
            },
    {
        self.read_int(8)
    }
    /// Reads a single-precision float (or `Zero`), as its bit pattern.
    pub fn f32_bits(&mut self) -> (r: Result<u32>)
        ensures
            match parse_f32(old(self)@) {
                Ok((v, k)) => r == Ok::<u32, Error>(v) && final(self)@ == old(self)@.skip(k as int),
                Err(e) => r == Err::<u32, Error>(e),
            },
    {
        proof {
            lemma_pow256_values();
        }
        let ghost s = self@;
        let (_tag, tp) = match self.get_head() {
            Ok(h) => h,
            Err(e) => return Err(e),
        };
        match tp {
            JceType::Zero => Ok(0),
            JceType::F32 => {
                let ghost h = s.len() - self@.len();
                let x = match self.get_bytes_fixed(4) {
                    Ok(x) => x,
                    Err(e) => return Err(e),
                };
                proof {
                    assert(s.skip(h).subrange(0, 4) =~= s.subrange(h, h + 4));
                    assert(self@ =~= s.skip(h + 4));
                }
                Ok(x as u32)
            },
            _ => Err(Error::WrongType),
        }
    }

    /// Reads a double (or `Zero`, or a single-precision float, widened), as its bit pattern.
    pub fn f64_bits(&mut self) -> (r: Result<u64>)
        ensures
            match parse_f64(old(self)@) {
                Ok((v, k)) => r == Ok::<u64, Error>(v) && final(self)@ == old(self)@.skip(k as int),
                Err(e) => r == Err::<u64, Error>(e),
            },
    {
        proof {
            lemma_pow256_values();
        }
        let ghost s = self@;
        let (_tag, tp) = match self.get_head() {
            Ok(h) => h,
            Err(e) => return Err(e),
        };
        let ghost h = s.len() - self@.len();
        match tp {
            JceType::Zero => Ok(0),
            JceType::F32 => {
                let x = match self.get_bytes_fixed(4) {
                    Ok(x) => x,
                    Err(e) => return Err(e),
                };
                proof {
                    assert(s.skip(h).subrange(0, 4) =~= s.subrange(h, h + 4));
                    assert(self@ =~= s.skip(h + 4));
                }
                Ok(widen_f32_bits(x as u32))
            },
            JceType::F64 => {
                let x = match self.get_bytes_fixed(8) {
                    Ok(x) => x,
                    Err(e) => return Err(e),
                };
                proof {
                    assert(s.skip(h).subrange(0, 8) =~= s.subrange(h, h + 8));
                    assert(self@ =~= s.skip(h + 8));
                }
                Ok(x)
            },
            _ => Err(Error::WrongType),
        }
    }
    /// Reads a string whose header may be `String1` (when `small`), `String4` (when
    /// `big`) or `Zero`.
    fn read_str(&mut self, small: bool, big: bool) -> (r: Result<&'de str>)
        ensures
            match parse_str(old(self)@, small, big) {
                Ok((cs, k)) => r matches Ok(x) && x@ == cs && final(self)@ == old(self)@.skip(
                    k as int,
                ),
                Err(e) => r == Err::<&'de str, Error>(e),
            },
            parse_str_bytes(old(self)@, small, big) is Ok && !valid_utf8(
                parse_str_bytes(old(self)@, small, big)->Ok_0.0,
            ) ==> final(self)@ == old(self)@.skip(
                parse_str_bytes(old(self)@, small, big)->Ok_0.1 as int,
            ),
    {
        proof {
            lemma_pow256_values();
        }
        let ghost s = self@;
        let (_tag, tp) = match self.get_head() {
            Ok(h) => h,
            Err(e) => return Err(e),
        };
        let ghost h = s.len() - self@.len();
        if tp == JceType::Zero {
            let empty = "";
            proof {
                reveal_strlit("");
                assert(decode_utf8(Seq::empty()) =~= Seq::<char>::empty());
            }
            return Ok(empty);
        }
        if !((small && tp == JceType::String1) || (big && tp == JceType::String4)) {
            return Err(Error::WrongType);
        }
        let lw: usize = if tp == JceType::String1 {
            1
        } else {
            4
        };
        let n = match self.get_bytes_fixed(lw) {
            Ok(n) => n,
            Err(e) => return Err(e),
        };
        proof {
            assert(s.skip(h).subrange(0, lw as int) =~= s.subrange(h, h + lw));
            assert(self@ =~= s.skip(h + lw));
        }
        if n > self.bytes.len() as u64 {
            return Err(Error::NotEnoughtBytes);
        }
        let b = match self.get_bytes(n as usize) {
            Ok(b) => b,
            Err(e) => return Err(e),
        };
        proof {
            assert(b@ =~= s.subrange(h + lw, h + lw + n));
            assert(self@ =~= s.skip(h + lw + n));
        }
        match utf8_str(b) {
            Some(x) => Ok(x),
            None => Err(Error::StringIsNotUtf8),
        }
    }

    /// Reads a string with a one-byte length (or `Zero`).
    pub fn str_small(&mut self) -> (r: Result<&'de str>)
        ensures
            match parse_str(old(self)@, true, false) {
                Ok((cs, k)) => r matches Ok(x) && x@ == cs && final(self)@ == old(self)@.skip(
                    k as int,
                ),
                Err(e) => r == Err::<&'de str, Error>(e),
            },
            parse_str_bytes(old(self)@, true, false) is Ok && !valid_utf8(
                parse_str_bytes(old(self)@, true, false)->Ok_0.0,
            ) ==> final(self)@ == old(self)@.skip(
                parse_str_bytes(old(self)@, true, false)->Ok_0.1 as int,
            ),
    {
        self.read_str(true, false)
    }

    /// Reads a string with a four-byte length (or `Zero`).
    pub fn str_big(&mut self) -> (r: Result<&'de str>)
        ensures
            match parse_str(old(self)@, false, true) {
                Ok((cs, k)) => r matches Ok(x) && x@ == cs && final(self)@ == old(self)@.skip(
                    k as int,
                ),
                Err(e) => r == Err::<&'de str, Error>(e),
            },
            parse_str_bytes(old(self)@, false, true) is Ok && !valid_utf8(
                parse_str_bytes(old(self)@, false, true)->Ok_0.0,
            ) ==> final(self)@ == old(self)@.skip(
                parse_str_bytes(old(self)@, false, true)->Ok_0.1 as int,
            ),
    {
        self.read_str(false, true)
    }

    /// Reads a string of either length form (or `Zero`).
    pub fn str(&mut self) -> (r: Result<&'de str>)
        ensures
            match parse_str(old(self)@, true, true) {
                Ok((cs, k)) => r matches Ok(x) && x@ == cs && final(self)@ == old(self)@.skip(
                    k as int,
                ),
                Err(e) => r == Err::<&'de str, Error>(e),
            },
            parse_str_bytes(old(self)@, true, true) is Ok && !valid_utf8(
                parse_str_bytes(old(self)@, true, true)->Ok_0.0,
            ) ==> final(self)@ == old(self)@.skip(
                parse_str_bytes(old(self)@, true, true)->Ok_0.1 as int,
            ),
    {
        self.read_str(true, true)
    }

    /// Reads the header of a map or a list (`t`) and its length.
    fn read_len(&mut self, t: JceType) -> (r: Result<usize>)
        ensures
            match parse_len(old(self)@, t) {
                Ok((n, k)) => r matches Ok(x) && x as nat == n && final(self)@ == old(self)@.skip(
                    k as int,
                ) && n < 0x8000_0000 && 0 < k <= old(self)@.len(),
                Err(e) => r == Err::<usize, Error>(e),
            },
    {
        proof {
            lemma_pow256_values();
        }
        let ghost s = self@;
        let (_tag, tp) = match self.get_head() {
            Ok(h) => h,
            Err(e) => return Err(e),
        };
        let ghost h = s.len() - self@.len();
        proof {
            assert(self@ =~= s.skip(h));
        }
        if tp == JceType::Zero {
            Ok(0)
        } else if tp == t {
            let n = match self.read_int(4) {
                Ok(n) => n,
                Err(e) => return Err(e),
            };
            proof {
                assert(self@ =~= s.skip(s.len() - self@.len()));
            }
            if n < 0 {
                Err(Error::WrongLength)
            } else {
                Ok(n as usize)
            }
        } else {
            Err(Error::WrongType)
        }
    }

    /// Reads a map header and returns its number of entries; each key and each value
    /// follows as a value of its own.
    pub fn map(&mut self) -> (r: Result<usize>)
        ensures
            match parse_len(old(self)@, JceType::Mapping) {
                Ok((n, k)) => r matches Ok(x) && x as nat == n && final(self)@ == old(self)@.skip(
                    k as int,
                ),
                Err(e) => r == Err::<usize, Error>(e),
            },
    {
        self.read_len(JceType::Mapping)
    }

    /// Reads a list header and returns its number of elements.
    pub fn list(&mut self) -> (r: Result<usize>)
        ensures
            match parse_len(old(self)@, JceType::List) {
                Ok((n, k)) => r matches Ok(x) && x as nat == n && final(self)@ == old(self)@.skip(
                    k as int,
                ),
                Err(e) => r == Err::<usize, Error>(e),
            },
    {
        self.read_len(JceType::List)
    }

    /// Reads a header of type `t`, which has no payload.
    fn read_marker(&mut self, t: JceType) -> (r: Result<()>)
        ensures
            match parse_marker(old(self)@, t) {
                Ok(k) => r is Ok && final(self)@ == old(self)@.skip(k as int) && 0 < k <= old(self)@.len(),
                Err(e) => r == Err::<(), Error>(e),
            },
    {
        let (_tag, tp) = match self.get_head() {
            Ok(h) => h,
            Err(e) => return Err(e),
        };
        if tp == t {
            Ok(())
        } else {
            Err(Error::WrongType)
        }
    }

    /// Reads the header that opens a struct.
    pub fn struct_begin(&mut self) -> (r: Result<()>)
        ensures
            match parse_marker(old(self)@, JceType::StructBegin) {
                Ok(k) => r is Ok && final(self)@ == old(self)@.skip(k as int),
                Err(e) => r == Err::<(), Error>(e),
            },
    {
        self.read_marker(JceType::StructBegin)
    }

    /// Reads the header that closes a struct.
    pub fn struct_end(&mut self) -> (r: Result<()>)
        ensures
            match parse_marker(old(self)@, JceType::StructEnd) {
                Ok(k) => r is Ok && final(self)@ == old(self)@.skip(k as int),
                Err(e) => r == Err::<(), Error>(e),
            },
    {
        self.read_marker(JceType::StructEnd)
    }

    /// Reads a `Zero` header.
    pub fn zero(&mut self) -> (r: Result<()>)
        ensures
            match parse_marker(old(self)@, JceType::Zero) {
                Ok(k) => r is Ok && final(self)@ == old(self)@.skip(k as int),
                Err(e) => r == Err::<(), Error>(e),
            },
    {
        self.read_marker(JceType::Zero)
    }

    /// Reads a byte string (or `Zero`, for the empty one).
    pub fn bytes(&mut self) -> (r: Result<&'de [u8]>)
        ensures
            match parse_bytes(old(self)@) {
                Ok((b, k)) => r matches Ok(x) && x@ == b && final(self)@ == old(self)@.skip(
                    k as int,
                ),
                Err(e) => r == Err::<&'de [u8], Error>(e),
            },
    {
        let ghost s = self@;
        let (_tag, tp) = match self.get_head() {
            Ok(h) => h,
            Err(e) => return Err(e),
        };
        let ghost h = s.len() - self@.len();
        proof {
            assert(self@ =~= s.skip(h));
        }
        if tp == JceType::Zero {
            let b = vstd::slice::slice_subrange(self.bytes, 0, 0);
            assert(b@ =~= Seq::<u8>::empty());
            return Ok(b);
        }
        if tp != JceType::Bytes {
            return Err(Error::WrongType);
        }
        let r = self.bytes_payload();
        proof {
            if r is Ok {
                assert(final(self)@ =~= s.skip(h).skip(s.len() - h - final(self)@.len()));
                assert(final(self)@ =~= s.skip(s.len() - final(self)@.len()));
            }
        }
        r
    }

    /// Reads what follows the header of a byte string.
    fn bytes_payload(&mut self) -> (r: Result<&'de [u8]>)
        ensures
            match parse_bytes_payload(old(self)@) {
                Ok((b, k)) => r matches Ok(x) && x@ == b && final(self)@ == old(self)@.skip(
                    k as int,
                ),
                Err(e) => r == Err::<&'de [u8], Error>(e),
            },
    {
        proof {
            lemma_pow256_values();
        }
        let ghost s = self@;
        let (_t2, tp2) = match self.get_head() {
            Ok(h) => h,
            Err(e) => return Err(e),
        };
        let ghost h2 = s.len() - self@.len();
        proof {
            assert(self@ =~= s.skip(h2));
        }
        if tp2 != JceType::I8 {
            return Err(Error::WrongType);
        }
        let n = match self.read_int(4) {
            Ok(n) => n,
            Err(e) => return Err(e),
        };
        let ghost k = s.len() - h2 - self@.len();
        proof {
            assert(self@ =~= s.skip(h2 + k));
        }
        if n < 0 {
            return Err(Error::WrongLength);
        }
        let b = match self.get_bytes(n as usize) {
            Ok(b) => b,
            Err(e) => return Err(e),
        };
        proof {
            assert(b@ =~= s.subrange(h2 + k, h2 + k + n));
            assert(self@ =~= s.skip(h2 + k + n));
        }
        Ok(b)
    }
    /// Reads past one value of any type, nested maps, lists and structs included.
    pub fn ignore(&mut self) -> (r: Result<()>)
        ensures
            match skip_value(old(self)@) {
                Ok(rest) => r is Ok && final(self)@ == rest,
                Err(e) => r == Err::<(), Error>(e),
            },
            r is Ok ==> final(self)@.len() < old(self)@.len(),
        decreases old(self)@.len(),
    {
        let ghost s = self@;
        let tp = match self.pick_type() {
            Ok(t) => t,
            Err(e) => return Err(e),
        };
        match tp {
            JceType::Mapping | JceType::List => {
                let n = match self.read_len(tp) {
                    Ok(n) => n,
                    Err(e) => return Err(e),
                };
                let ghost s1 = self@;
                let ghost per: nat = if tp == JceType::Mapping {
                    2
                } else {
                    1
                };
                let mut i: usize = 0;
                while i < n
                    invariant
                        i <= n,
                        s == old(self)@,
                        per == 1 || per == 2,
                        per == 2 <==> tp == JceType::Mapping,
                        self@.len() <= s1.len() < s.len(),
                        skip_value(s) == skip_values(s1, per * (n as nat)),
                        skip_values(s1, per * (n as nat)) == skip_values(self@, per * (n - i) as nat),
                    decreases n - i,
                {
                    let ghost cur = self@;
                    match self.ignore() {
                        Ok(()) => {},
                        Err(e) => return Err(e),
                    }
                    if tp == JceType::Mapping {
                        let ghost mid = self@;
                        assert(skip_values(cur, per * (n - i) as nat) == skip_values(
                            mid,
                            (per * (n - i) - 1) as nat,
                        ));
                        match self.ignore() {
                            Ok(()) => {},
                            Err(e) => return Err(e),
                        }
                        assert(skip_values(mid, (per * (n - i) - 1) as nat) == skip_values(
                            self@,
                            per * (n - i - 1) as nat,
                        ));
                    }
                    i = i + 1;
                }
                Ok(())
            },
            JceType::StructBegin => {
                match self.read_marker(JceType::StructBegin) {
                    Ok(()) => {},
                    Err(e) => return Err(e),
                }
                let ghost s1 = self@;
                loop
                    invariant
                        s == old(self)@,
                        self@.len() <= s1.len() < s.len(),
                        skip_value(s) == skip_fields(s1),
                        skip_fields(s1) == skip_fields(self@),
                    decreases self@.len(),
                {
                    let t = match self.pick_type() {
                        Ok(t) => t,
                        Err(e) => return Err(e),
                    };
                    if t == JceType::StructEnd {
                        return self.read_marker(JceType::StructEnd);
                    }
                    match self.ignore() {
                        Ok(()) => {},
                        Err(e) => return Err(e),
                    }
                }
            },
            _ => {
                proof {
                    assert(skip_value(s) == match skip_flat(s, tp) {
                        Err(e) => Err(e),
                        Ok(k) => Ok(s.skip(k as int)),
                    });
                }
                let r = match tp {
                    JceType::I8 => match self.i8() {
                        Ok(_) => Ok(()),
                        Err(e) => Err(e),
                    },
                    JceType::I16 => match self.i16() {
                        Ok(_) => Ok(()),
                        Err(e) => Err(e),
                    },
                    JceType::I32 => match self.i32() {
                        Ok(_) => Ok(()),
                        Err(e) => Err(e),
                    },
                    JceType::I64 => match self.i64() {
                        Ok(_) => Ok(()),
                        Err(e) => Err(e),
                    },
                    JceType::F32 => match self.f32_bits() {
                        Ok(_) => Ok(()),
                        Err(e) => Err(e),
                    },
                    JceType::F64 => match self.f64_bits() {
                        Ok(_) => Ok(()),
                        Err(e) => Err(e),
                    },
                    JceType::String1 => match self.str_small() {
                        Ok(_) => Ok(()),
                        Err(e) => Err(e),
                    },
                    JceType::String4 => match self.str_big() {
                        Ok(_) => Ok(()),
                        Err(e) => Err(e),
                    },
                    JceType::Bytes => match self.bytes() {
                        Ok(_) => Ok(()),
                        Err(e) => Err(e),
                    },
                    _ => self.read_marker(tp),
                };
                r
            },
        }
    }
}

/// The bit pattern of the double with the value of the single-precision float `b`.
pub fn widen_f32_bits(b: u32) -> (r: u64)
    ensures
        r == widen_f32(b),
{
    let sign = (b / 0x8000_0000) as u64;
    let e = ((b / 0x80_0000) % 0x100) as u64;
    let m = (b % 0x80_0000) as u64;
    let s64 = sign * 0x8000_0000_0000_0000;
    if e == 0xff {
        let quiet: u64 = if m == 0 || m >= 0x40_0000 {
            m
        } else {
            m + 0x40_0000
        };
        s64 + 0x7ff * 0x10_0000_0000_0000 + quiet * 0x2000_0000
    } else if e == 0 && m == 0 {
        s64
    } else if e == 0 {
        let mut mm: u64 = m;
        let mut k: u64 = 0;
        proof {
            reveal_with_fuel(pow2, 24);
        }
        while mm < 0x80_0000
            invariant
                0 < mm < 0x100_0000,
                k <= 23,
                mm >= pow2(k as nat),
                pow2(23) == 0x80_0000,
                normalize(m as nat, 0) == normalize(mm as nat, k as nat),
            decreases 0x100_0000 - mm,
        {
            if k == 23 {
                assert(false);
            }
            mm = mm * 2;
            k = k + 1;
        }
        s64 + (897 - k) * 0x10_0000_0000_0000 + (mm - 0x80_0000) * 0x2000_0000
    } else {
        s64 + (e + 896) * 0x10_0000_0000_0000 + m * 0x2000_0000
    }
}

} // verus!
