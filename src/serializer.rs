//! The encoding side: a builder with a current tag, and the tag check of struct fields.
use vstd::prelude::*;

use crate::builder::Jcebuilder;
use crate::error::{Error, Result};
use crate::format::{bytes_max, enc_bytes, enc_int, enc_list_begin, enc_map_begin, enc_str, string_max};
use std::collections::HashSet;
use vstd::utf8::encode_utf8;

verus! {

/// Writes values under a current tag; the tag of a struct field, a list element, a map
/// key (0) or a map value (1).
pub struct Serializer {
    pub tag: u8,
    pub builder: Jcebuilder,
}

impl Serializer {
    pub fn new() -> (r: Self)
        ensures
            r.tag == 0,
            r.builder@ == Seq::<u8>::empty(),
    {
        Serializer { tag: 0, builder: Jcebuilder::new() }
    }

    /// The bytes written so far.
    pub fn done(self) -> (r: Vec<u8>)
        ensures
            r@ == self.builder@,
    {
        self.builder.done()
    }

    /// Writes an unsigned integer; those above `i64::MAX` are refused.
    pub fn serialize_u64(&mut self, v: u64) -> (r: Result<()>)
        ensures
            final(self).tag == old(self).tag,
            v <= i64::MAX ==> r is Ok && final(self).builder@ == old(self).builder@ + enc_int(
                old(self).tag,
                v as int,
            ),
            v > i64::MAX ==> r == Err::<(), Error>(Error::IntTooBig) && final(self).builder@
                == old(self).builder@,
    {
        if v <= 0x7fff_ffff_ffff_ffff {
            self.builder.i64(self.tag, v as i64);
            Ok(())
        } else {
            Err(Error::IntTooBig)
        }
    }

    /// Writes a string; one longer than `STRING_MAX_LENGTH` bytes is refused.
    pub fn serialize_str(&mut self, v: &str) -> (r: Result<()>)
        ensures
            final(self).tag == old(self).tag,
            encode_utf8(v@).len() <= string_max() ==> r is Ok && final(self).builder@ == old(self).builder@ + enc_str(old(self).tag, encode_utf8(v@)),
            encode_utf8(v@).len() > string_max() ==> r == Err::<(), Error>(Error::StringTooLong)
                && final(self).builder@ == old(self).builder@,
    {
        if v.as_bytes().len() <= Jcebuilder::STRING_MAX_LENGTH {
            self.builder.str(self.tag, v);
            Ok(())
        } else {
            Err(Error::StringTooLong)
        }
    }

    /// Writes a byte string; one longer than `BYTES_MAX_LENGTH` bytes is refused.
    pub fn serialize_bytes(&mut self, v: &[u8]) -> (r: Result<()>)
        ensures
            final(self).tag == old(self).tag,
            v@.len() <= bytes_max() ==> r is Ok && final(self).builder@ == old(self).builder@
                + enc_bytes(old(self).tag, v@),
            v@.len() > bytes_max() ==> r == Err::<(), Error>(Error::BytesTooLong) && final(self).builder@ == old(self).builder@,
    {
        if v.len() <= Jcebuilder::BYTES_MAX_LENGTH {
            self.builder.bytes(self.tag, v);
            Ok(())
        } else {
            Err(Error::BytesTooLong)
        }
    }

    /// Starts a list of `len` elements: the length must be known and fit in an `i32`.
    pub fn serialize_seq(&mut self, len: Option<usize>) -> (r: Result<()>)
        ensures
            final(self).tag == old(self).tag,
            match len {
                None => r == Err::<(), Error>(Error::NeedLength) && final(self).builder@ == old(self).builder@,
                Some(n) => if n <= i32::MAX {
                    r is Ok && final(self).builder@ == old(self).builder@ + enc_list_begin(
                        old(self).tag,
                        n as int,
                    )
                } else {
                    r == Err::<(), Error>(Error::SeqTooLong) && final(self).builder@ == old(self).builder@
                },
            },
    {
        match len {
            None => Err(Error::NeedLength),
            Some(n) => if n <= 0x7fff_ffff {
                self.builder.list_begin(self.tag, n as i32);
                Ok(())
            } else {
                Err(Error::SeqTooLong)
            },
        }
    }

    /// Starts a map of `len` entries: the length must be known and fit in an `i32`.
    pub fn serialize_map(&mut self, len: Option<usize>) -> (r: Result<()>)
        ensures
            final(self).tag == old(self).tag,
            match len {
                None => r == Err::<(), Error>(Error::NeedLength) && final(self).builder@ == old(self).builder@,
                Some(n) => if n <= i32::MAX {
                    r is Ok && final(self).builder@ == old(self).builder@ + enc_map_begin(
                        old(self).tag,
                        n as int,
                    )
                } else {
                    r == Err::<(), Error>(Error::MapTooLong) && final(self).builder@ == old(self).builder@
                },
            },
    {
        match len {
            None => Err(Error::NeedLength),
            Some(n) => if n <= 0x7fff_ffff {
                self.builder.map_begin(self.tag, n as i32);
                Ok(())
            } else {
                Err(Error::MapTooLong)
            },
        }
    }
}

/// The tags already written in one struct, so that none is written twice.
pub struct StructSerializer {
    tags: HashSet<u8>,
}

impl View for StructSerializer {
    type V = Set<u8>;

    closed spec fn view(&self) -> Set<u8> {
        self.tags@
    }
}

impl StructSerializer {
    pub fn new() -> (r: Self)
        ensures
            r@ == Set::<u8>::empty(),
    {
        StructSerializer { tags: HashSet::new() }
    }

    /// Claims `tag` for the next field: `DuplicateFieldTag` if a field of this struct
    /// already has it. Nothing is written here, so a refused field leaves no bytes.
    pub fn field_tag(&mut self, tag: u8) -> (r: Result<()>)
        ensures
            old(self)@.contains(tag) ==> r == Err::<(), Error>(Error::DuplicateFieldTag)
                && final(self)@ == old(self)@,
            !old(self)@.contains(tag) ==> r is Ok && final(self)@ == old(self)@.insert(tag),
    {
        if self.tags.insert(tag) {
            Ok(())
        } else {
            proof {
                assert(old(self)@.insert(tag) =~= old(self)@);
            }
            Err(Error::DuplicateFieldTag)
        }
    }
}

} // verus!
