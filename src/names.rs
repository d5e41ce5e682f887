//! Field names of typed records: each names its tag in decimal.
use vstd::prelude::*;

use crate::error::{Error, Result};

verus! {

/// Whether every character of `d` is an ASCII digit.
pub open spec fn all_digits(d: Seq<char>) -> bool {
    forall|i: int| 0 <= i < d.len() ==> 48 <= (#[trigger] d[i]) as u32 <= 57
}

/// The number that the decimal digits `d` spell.
pub open spec fn digits_value(d: Seq<char>) -> nat
    decreases d.len(),
{
    if d.len() == 0 {
        0
    } else {
        digits_value(d.drop_last()) * 10 + (d.last() as u32 - 48) as nat
    }
}

/// The byte that `s` spells in decimal: an optional `+`, then one or more ASCII digits
/// whose value is at most 255.
pub open spec fn decimal_u8(s: Seq<char>) -> Option<u8> {
    let d = if s.len() > 0 && s[0] == '+' {
        s.drop_first()
    } else {
        s
    };
    if d.len() > 0 && all_digits(d) && digits_value(d) <= 255 {
        Some(digits_value(d) as u8)
    } else {
        None
    }
}

/// Relies on `str::parse::<u8>` (`u8::from_str`): it accepts exactly an optional `+`
/// followed by one or more ASCII digits whose value fits in a `u8`, and returns that value.
#[verifier::external_body]
fn parse_u8(s: &str) -> (r: Option<u8>)
    ensures
        r == decimal_u8(s@),
{
    s.parse::<u8>().ok()
}

/// The tag that a field name spells: `ErrorFieldTag` unless it is a decimal number of at
/// most 255.
pub fn tag_of_name(name: &str) -> (r: Result<u8>)
    ensures
        r == (match decimal_u8(name@) {
            Some(t) => Ok::<u8, Error>(t),
            None => Err(Error::ErrorFieldTag),
        }),
{
    match parse_u8(name) {
        Some(t) => Ok(t),
        None => Err(Error::ErrorFieldTag),
    }
}

/// The characters of each name.
pub open spec fn name_views(names: Seq<&str>) -> Seq<Seq<char>> {
    names.map_values(|s: &str| s@)
}

/// The tags of the names from position `i` on, appended to `acc`; the first name that is not
/// a tag gives `ErrorFieldTag`, the first that repeats a tag `DuplicateFieldTagName`.
pub open spec fn tags_from(names: Seq<Seq<char>>, i: nat, acc: Seq<u8>) -> Result<Seq<u8>>
    decreases names.len() - i,
{
    if i >= names.len() {
        Ok(acc)
    } else {
        match decimal_u8(names[i as int]) {
            None => Err(Error::ErrorFieldTag),
            Some(t) => if acc.contains(t) {
                Err(Error::DuplicateFieldTagName)
            } else {
                tags_from(names, i + 1, acc.push(t))
            },
        }
    }
}

/// The tags of the field names of a record, in order, scanned so that the first error met
/// is the one returned.
pub fn field_tags(names: &[&str]) -> (r: Result<Vec<u8>>)
    ensures
        match tags_from(name_views(names@), 0, Seq::empty()) {
            Ok(ts) => r matches Ok(v) && v@ == ts,
            Err(e) => r == Err::<Vec<u8>, Error>(e),
        },
{
    let ghost ns = name_views(names@);
    let mut tags: Vec<u8> = Vec::new();
    let mut i: usize = 0;
    while i < names.len()
        invariant
            i <= names@.len(),
            ns == name_views(names@),
            ns.len() == names@.len(),
            tags_from(ns, 0, Seq::empty()) == tags_from(ns, i as nat, tags@),
        decreases names@.len() - i,
    {
        assert(ns[i as int] == names@[i as int]@);
        let t = match tag_of_name(names[i]) {
            Ok(t) => t,
            Err(e) => return Err(e),
        };
        let mut j: usize = 0;
        while j < tags.len()
            invariant
                j <= tags@.len(),
                forall|k: int| 0 <= k < j ==> tags@[k] != t,
                i < ns.len(),
                ns == name_views(names@),
                decimal_u8(ns[i as int]) == Some(t),
                tags_from(ns, 0, Seq::empty()) == tags_from(ns, i as nat, tags@),
            decreases tags@.len() - j,
        {
            if tags[j] == t {
                assert(tags@[j as int] == t);
                assert(tags@.contains(t));
                assert(tags_from(ns, i as nat, tags@) == Err::<Seq<u8>, Error>(
                    Error::DuplicateFieldTagName,
                ));
                return Err(Error::DuplicateFieldTagName);
            }
            j = j + 1;
        }
        tags.push(t);
        i = i + 1;
    }
    Ok(tags)
}

} // verus!
