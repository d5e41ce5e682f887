//! The decoding side: a parser over a whole buffer, and the field multiplexer of structs.
use vstd::prelude::*;

use crate::error::{Error, Result};
use crate::format::{parse_head, skip_value};
use crate::parser::JceParser;
use crate::types::JceType;
use std::collections::HashSet;

verus! {

/// Reads a whole buffer of the wire format.
pub struct Deserializer<'de> {
    pub parser: JceParser<'de>,
}

impl<'de> Deserializer<'de> {
    pub fn from_bytes(bytes: &'de [u8]) -> (r: Self)
        ensures
            r.parser@ == bytes@,
    {
        Deserializer { parser: JceParser::from_bytes(bytes) }
    }

    /// Whether every byte has been read.
    pub fn done(&self) -> (r: bool)
        ensures
            r == (self.parser@.len() == 0),
    {
        self.parser.done()
    }
}

/// Whether some byte occurs twice or more in `s`.
pub open spec fn has_repeat(s: Seq<u8>) -> bool {
    exists|i: int, j: int| 0 <= i < j < s.len() && s[i] == s[j]
}

/// The next field of a struct that the reader asks for, at the start of `s`, with the
/// tags `seen` already read and the tags `expected` (all, when `None`) asked for.
/// Fields with other tags are skipped. Returns the tag (`None` at the terminator, which is
/// read), what remains, and the tags seen after.
pub open spec fn next_field(s: Seq<u8>, seen: Set<u8>, expected: Option<Set<u8>>) -> Result<
    (Option<u8>, Seq<u8>, Set<u8>),
>
    decreases s.len(),
{
    match parse_head(s) {
        Err(e) => Err(e),
        Ok((tag, t, h)) => if t == JceType::StructEnd {
            Ok((None, s.skip(h as int), seen))
        } else if seen.contains(tag) {
            Err(Error::DuplicateFieldTag)
        } else if expected is None || expected->Some_0.contains(tag) {
            Ok((Some(tag), s, seen.insert(tag)))
        } else {
            match skip_value(s) {
                Err(e) => Err(e),
                Ok(rest) => if rest.len() < s.len() {
                    next_field(rest, seen.insert(tag), expected)
                } else {
                    Err(Error::NotEnoughtBytes)
                },
            }
        },
    }
}

proof fn lemma_push_to_set(s: Seq<u8>, x: u8)
    ensures
        s.push(x).to_set() == s.to_set().insert(x),
        s.to_set().contains(x) == s.contains(x),
{
    assert(s.push(x).to_set() =~= s.to_set().insert(x)) by {
        assert forall|y: u8| s.push(x).to_set().contains(y) <==> s.to_set().insert(x).contains(y) by {
            if s.push(x).contains(y) && y != x {
                let k = choose|k: int| 0 <= k < s.push(x).len() && s.push(x)[k] == y;
                assert(s[k] == y);
            }
            if s.contains(y) {
                let k = choose|k: int| 0 <= k < s.len() && s[k] == y;
                assert(s.push(x)[k] == y);
            }
            assert(s.push(x)[s.len() as int] == x);
        }
    }
}

/// Tracks the fields of one struct while it is read: the tags already read, and the tags
/// that the reader asks for.
pub struct TagsAccess {
    tags: HashSet<u8>,
    fields: Option<HashSet<u8>>,
}

impl View for TagsAccess {
    type V = (Set<u8>, Option<Set<u8>>);

    closed spec fn view(&self) -> (Set<u8>, Option<Set<u8>>) {
        (
            self.tags@,
            match self.fields {
                Some(f) => Some(f@),
                None => None,
            },
        )
    }
}

impl TagsAccess {
    /// A struct read without a list of fields: every field is handed to the reader.
    pub fn new() -> (r: Self)
        ensures
            r@ == (Set::<u8>::empty(), None::<Set<u8>>),
    {
        TagsAccess { tags: HashSet::new(), fields: None }
    }

    /// A struct read for the fields with tags `fields`; other fields are skipped. A tag
    /// listed twice is `DuplicateFieldTagName`.
    pub fn new_with_fields(fields: &[u8]) -> (r: Result<Self>)
        ensures
            has_repeat(fields@) ==> r == Err::<Self, Error>(Error::DuplicateFieldTagName),
            !has_repeat(fields@) ==> (r matches Ok(a) && a@ == (Set::<u8>::empty(), Some(
                fields@.to_set(),
            ))),
    {
        let mut set: HashSet<u8> = HashSet::new();
        let mut i: usize = 0;
        while i < fields.len()
            invariant
                i <= fields@.len(),
                set@ == fields@.take(i as int).to_set(),
                !has_repeat(fields@.take(i as int)),
            decreases fields@.len() - i,
        {
            let ghost before = fields@.take(i as int);
            proof {
                assert(fields@.take(i + 1) =~= before.push(fields@[i as int]));
                lemma_push_to_set(before, fields@[i as int]);
            }
            if !set.insert(fields[i]) {
                proof {
                    let j = choose|j: int| 0 <= j < before.len() && before[j] == fields@[i as int];
                    assert(fields@[j] == fields@[i as int]);
                }
                return Err(Error::DuplicateFieldTagName);
            }
            i = i + 1;
            proof {
                assert forall|a: int, b: int| 0 <= a < b < i implies fields@.take(i as int)[a]
                    != fields@.take(i as int)[b] by {
                    if b < i - 1 {
                        assert(fields@.take(i - 1)[a] == fields@[a]);
                        assert(fields@.take(i - 1)[b] == fields@[b]);
                    } else {
                        assert(before[a] == fields@[a]);
                        if fields@[a] == fields@[b] {
                            assert(before.contains(fields@[b]));
                        }
                    }
                }
            }
        }
        assert(fields@.take(i as int) =~= fields@);
        Ok(TagsAccess { tags: HashSet::new(), fields: Some(set) })
    }

    /// Reads the terminator of the struct (`None`), or peeks at the next field's tag and
    /// records it: `DuplicateFieldTag` if it was read before.
    pub fn get_tag(&mut self, p: &mut JceParser) -> (r: Result<Option<u8>>)
        ensures
            final(self)@.1 == old(self)@.1,
            match parse_head(old(p)@) {
                Err(e) => r == Err::<Option<u8>, Error>(e),
                Ok((tag, t, h)) => if t == JceType::StructEnd {
                    r == Ok::<Option<u8>, Error>(None) && final(p)@ == old(p)@.skip(h as int)
                        && final(self)@ == old(self)@
                } else if old(self)@.0.contains(tag) {
                    r == Err::<Option<u8>, Error>(Error::DuplicateFieldTag) && final(self)@ == old(self)@ && final(p)@ == old(p)@
                } else {
                    r == Ok::<Option<u8>, Error>(Some(tag)) && final(p)@ == old(p)@ && final(self)@.0 == old(self)@.0.insert(tag)
                },
            },
    {
        let (tag, tp) = match p.pick_head() {
            Ok(h) => h,
            Err(e) => return Err(e),
        };
        if tp == JceType::StructEnd {
            return match p.struct_end() {
                Ok(()) => Ok(None),
                Err(e) => Err(e),
            };
        }
        if self.tags.insert(tag) {
            Ok(Some(tag))
        } else {
            Err(Error::DuplicateFieldTag)
        }
    }

    /// The tag of the next field that the reader asks for, skipping the others; `None`
    /// once the terminator is read. The parser is left at the field's header.
    pub fn next_key(&mut self, p: &mut JceParser) -> (r: Result<Option<u8>>)
        ensures
            final(self)@.1 == old(self)@.1,
            match next_field(old(p)@, old(self)@.0, old(self)@.1) {
                Err(e) => r == Err::<Option<u8>, Error>(e),
                Ok((key, rest, seen)) => r == Ok::<Option<u8>, Error>(key) && final(p)@ == rest
                    && final(self)@.0 == seen,
            },
    {
        loop
            invariant
                self@.1 == old(self)@.1,
                next_field(old(p)@, old(self)@.0, old(self)@.1) == next_field(
                    p@,
                    self@.0,
                    self@.1,
                ),
            decreases p@.len(),
        {
            let ghost s = p@;
            let tag = match self.get_tag(p) {
                Ok(Some(t)) => t,
                Ok(None) => return Ok(None),
                Err(e) => return Err(e),
            };
            let wanted = match &self.fields {
                None => true,
                Some(f) => f.contains(&tag),
            };
            if wanted {
                return Ok(Some(tag));
            }
            match p.ignore() {
                Ok(()) => {},
                Err(e) => return Err(e),
            }
        }
    }
}

} // verus!
