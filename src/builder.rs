//! An append-only writer of the wire format.
use vstd::prelude::*;

use crate::format::{
    be, bytes_max, enc_bytes, enc_f32, enc_f64, enc_int, enc_list_begin, enc_map_begin, enc_str,
    head, int_type, lemma_pow256_values, string_max, twos, width,
};
use crate::types::JceType;
use vstd::utf8::encode_utf8;

verus! {

/// Writes values in the wire format into a growing byte buffer.
pub struct Jcebuilder {
    bytes: Vec<u8>,
}

impl View for Jcebuilder {
    type V = Seq<u8>;

    closed spec fn view(&self) -> Seq<u8> {
        self.bytes@
    }
}

impl Jcebuilder {
    /// The longest string payload that is written; longer strings are cut.
    pub const STRING_MAX_LENGTH: usize = 0xffff_ffff;

    /// The longest byte-string payload that is written; longer ones are cut.
    pub const BYTES_MAX_LENGTH: usize = 0x7fff_ffff;

    pub fn new() -> (r: Self)
        ensures
            r@ == Seq::<u8>::empty(),
    {
        Jcebuilder { bytes: Vec::new() }
    }

    /// The bytes written so far.
    pub fn done(self) -> (r: Vec<u8>)
        ensures
            r@ == self@,
    {
        self.bytes
    }

    fn push_head(&mut self, tag: u8, tp: JceType) -> (r: &mut Self)
        ensures
            r@ == old(self)@ + head(tag, tp),
            *final(self) == *final(r),
    {
        let code = tp.code();
        if tag < 15 {
            self.bytes.push(tag * 16 + code);
        } else {
            self.bytes.push(0xf0 + code);
            self.bytes.push(tag);
        }
        assert(self@ =~= old(self)@ + head(tag, tp));
        self
    }

    fn push_byte(&mut self, byte: u8) -> (r: &mut Self)
        ensures
            r@ == old(self)@.push(byte),
            *final(self) == *final(r),
    {
        self.bytes.push(byte);
        self
    }

    fn push_bytes(&mut self, bytes: &[u8]) -> (r: &mut Self)
        ensures
            r@ == old(self)@ + bytes@,
            *final(self) == *final(r),
    {
        let mut i: usize = 0;
        while i < bytes.len()
            invariant
                i <= bytes@.len(),
                self@ == old(self)@ + bytes@.take(i as int),
            decreases bytes@.len() - i,
        {
            self.bytes.push(bytes[i]);
            i = i + 1;
            assert(self@ =~= old(self)@ + bytes@.take(i as int));
        }
        assert(bytes@.take(i as int) =~= bytes@);
        self
    }

    /// Appends `n` big-endian bytes of `x`.
    fn push_be(&mut self, x: u64, n: usize)
        ensures
            final(self)@ == old(self)@ + be(x as nat, n as nat),
        decreases n,
    {
        if n > 0 {
            self.push_be(x / 256, n - 1);
            self.bytes.push((x % 256) as u8);
            assert(self@ =~= old(self)@ + be(x as nat, n as nat));
        } else {
            assert(self@ =~= old(self)@ + be(x as nat, n as nat));
        }
    }
    pub fn i8(&mut self, tag: u8, v: i8) -> (r: &mut Self)
        ensures
            r@ == old(self)@ + enc_int(tag, v as int),
            *final(self) == *final(r),
    {
        proof {
            lemma_pow256_values();
        }
        if v == 0 {
            self.zero(tag)
        } else {
            let x: u64 = if v < 0 {
                (v as i64 + 0x100) as u64
            } else {
                v as u64
            };
            self.push_head(tag, JceType::I8);
            self.push_be(x, 1);
            self
        }
    }

    pub fn i16(&mut self, tag: u8, v: i16) -> (r: &mut Self)
        ensures
            r@ == old(self)@ + enc_int(tag, v as int),
            *final(self) == *final(r),
    {
        proof {
            lemma_pow256_values();
        }
        if -128 <= v && v <= 127 {
            self.i8(tag, v as i8)
        } else {
            let x: u64 = if v < 0 {
                (v as i64 + 0x1_0000) as u64
            } else {
                v as u64
            };
            self.push_head(tag, JceType::I16);
            self.push_be(x, 2);
            self
        }
    }

    pub fn i32(&mut self, tag: u8, v: i32) -> (r: &mut Self)
        ensures
            r@ == old(self)@ + enc_int(tag, v as int),
            *final(self) == *final(r),
    {
        proof {
            lemma_pow256_values();
        }
        if -32768 <= v && v <= 32767 {
            self.i16(tag, v as i16)
        } else {
            let x: u64 = if v < 0 {
                (v as i64 + 0x1_0000_0000) as u64
            } else {
                v as u64
            };
            self.push_head(tag, JceType::I32);
            self.push_be(x, 4);
            self
        }
    }

    pub fn i64(&mut self, tag: u8, v: i64) -> (r: &mut Self)
        ensures
            r@ == old(self)@ + enc_int(tag, v as int),
            *final(self) == *final(r),
    {
        proof {
            lemma_pow256_values();
        }
        if -0x8000_0000 <= v && v <= 0x7fff_ffff {
            self.i32(tag, v as i32)
        } else {
            let x: u64 = if v < 0 {
                (v as i128 + 0x1_0000_0000_0000_0000) as u64
            } else {
                v as u64
            };
            self.push_head(tag, JceType::I64);
            self.push_be(x, 8);
            self
        }
    }

    /// Writes a single-precision float, given by its bit pattern.
    pub fn f32_bits(&mut self, tag: u8, bits: u32) -> (r: &mut Self)
        ensures
            r@ == old(self)@ + enc_f32(tag, bits),
            *final(self) == *final(r),
    {
        self.push_head(tag, JceType::F32);
        self.push_be(bits as u64, 4);
        self
    }

    /// Writes a double-precision float, given by its bit pattern.
    pub fn f64_bits(&mut self, tag: u8, bits: u64) -> (r: &mut Self)
        ensures
            r@ == old(self)@ + enc_f64(tag, bits),
            *final(self) == *final(r),
    {
        self.push_head(tag, JceType::F64);
        self.push_be(bits, 8);
        self
    }

    /// Writes a string: the empty string as a bare `Zero` header; a payload over
    /// `STRING_MAX_LENGTH` bytes is cut there.
    pub fn str(&mut self, tag: u8, v: &str) -> (r: &mut Self)
        ensures
            r@ == old(self)@ + enc_str(tag, encode_utf8(v@)),
            *final(self) == *final(r),
    {
        let b = v.as_bytes();
        if b.len() == 0 {
            self.push_head(tag, JceType::Zero);
        } else if b.len() <= 255 {
            self.push_head(tag, JceType::String1);
            self.push_byte(b.len() as u8);
            self.push_bytes(b);
            assert(self@ =~= old(self)@ + enc_str(tag, encode_utf8(v@)));
        } else {
            let n: usize = if b.len() <= Self::STRING_MAX_LENGTH {
                b.len()
            } else {
                Self::STRING_MAX_LENGTH
            };
            self.push_head(tag, JceType::String4);
            self.push_be(n as u64, 4);
            self.push_bytes(vstd::slice::slice_subrange(b, 0, n));
            assert(self@ =~= old(self)@ + enc_str(tag, encode_utf8(v@)));
        }
        self
    }

    /// Writes the start of a map of `len` entries: the caller then writes each key under
    /// tag 0 and each value under tag 1.
    pub fn map_begin(&mut self, tag: u8, len: i32) -> (r: &mut Self)
        ensures
            r@ == old(self)@ + enc_map_begin(tag, len as int),
            *final(self) == *final(r),
    {
        self.push_head(tag, JceType::Mapping);
        self.i32(0, len);
        assert(self@ =~= old(self)@ + enc_map_begin(tag, len as int));
        self
    }

    /// Writes the start of a list of `len` elements: the caller then writes each element
    /// under tag 0.
    pub fn list_begin(&mut self, tag: u8, len: i32) -> (r: &mut Self)
        ensures
            r@ == old(self)@ + enc_list_begin(tag, len as int),
            *final(self) == *final(r),
    {
        self.push_head(tag, JceType::List);
        self.i32(0, len);
        assert(self@ =~= old(self)@ + enc_list_begin(tag, len as int));
        self
    }

    pub fn struct_begin(&mut self, tag: u8) -> (r: &mut Self)
        ensures
            r@ == old(self)@ + head(tag, JceType::StructBegin),
            *final(self) == *final(r),
    {
        self.push_head(tag, JceType::StructBegin)
    }

    pub fn struct_end(&mut self) -> (r: &mut Self)
        ensures
            r@ == old(self)@ + head(0, JceType::StructEnd),
            *final(self) == *final(r),
    {
        self.push_head(0, JceType::StructEnd)
    }

    pub fn zero(&mut self, tag: u8) -> (r: &mut Self)
        ensures
            r@ == old(self)@ + head(tag, JceType::Zero),
            *final(self) == *final(r),
    {
        self.push_head(tag, JceType::Zero)
    }

    /// Writes a byte string; a payload over `BYTES_MAX_LENGTH` bytes is cut there.
    pub fn bytes(&mut self, tag: u8, v: &[u8]) -> (r: &mut Self)
        ensures
            r@ == old(self)@ + enc_bytes(tag, v@),
            *final(self) == *final(r),
    {
        let n: usize = if v.len() <= Self::BYTES_MAX_LENGTH {
            v.len()
        } else {
            Self::BYTES_MAX_LENGTH
        };
        self.push_head(tag, JceType::Bytes);
        self.push_head(0, JceType::I8);
        self.i32(0, n as i32);
        self.push_bytes(vstd::slice::slice_subrange(v, 0, n));
        assert(self@ =~= old(self)@ + enc_bytes(tag, v@));
        self
    }
}

} // verus!
