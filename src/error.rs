use vstd::prelude::*;

verus! {

/// Every way in which encoding or decoding can fail.
#[derive(Clone, Debug, PartialEq)]
pub enum Error {
    Message(String),
    UnknownJceType,
    NotEnoughtBytes,
    TrailingBytes,
    ErrorFieldTag,
    DuplicateFieldTag,
    DuplicateFieldTagName,
    WrongType,
    NeedLength,
    WrongLength,
    StringIsNotUtf8,
    IntTooBig,
    StringTooLong,
    BytesTooLong,
    SeqTooLong,
    MapTooLong,
}

pub type Result<T> = core::result::Result<T, Error>;

} // verus!
