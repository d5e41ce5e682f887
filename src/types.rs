use vstd::prelude::*;

use crate::error::Error;

verus! {

/// The wire type codes: the low nibble of every header byte.
#[derive(Clone, Copy, PartialEq, Eq, Debug, Structural)]
pub enum JceType {
    I8,
    I16,
    I32,
    I64,
    F32,
    F64,
    String1,
    String4,
    Mapping,
    List,
    StructBegin,
    StructEnd,
    Zero,
    Bytes,
}

impl JceType {
    /// The four-bit code of this type on the wire.
    pub open spec fn spec_code(self) -> u8 {
        match self {
            JceType::I8 => 0,
            JceType::I16 => 1,
            JceType::I32 => 2,
            JceType::I64 => 3,
            JceType::F32 => 4,
            JceType::F64 => 5,
            JceType::String1 => 6,
            JceType::String4 => 7,
            JceType::Mapping => 8,
            JceType::List => 9,
            JceType::StructBegin => 10,
            JceType::StructEnd => 11,
            JceType::Zero => 12,
            JceType::Bytes => 13,
        }
    }

    /// The type whose code is `c`, if any.
    pub open spec fn spec_from_code(c: u8) -> Option<JceType> {
        if c == 0 {
            Some(JceType::I8)
        } else if c == 1 {
            Some(JceType::I16)
        } else if c == 2 {
            Some(JceType::I32)
        } else if c == 3 {
            Some(JceType::I64)
        } else if c == 4 {
            Some(JceType::F32)
        } else if c == 5 {
            Some(JceType::F64)
        } else if c == 6 {
            Some(JceType::String1)
        } else if c == 7 {
            Some(JceType::String4)
        } else if c == 8 {
            Some(JceType::Mapping)
        } else if c == 9 {
            Some(JceType::List)
        } else if c == 10 {
            Some(JceType::StructBegin)
        } else if c == 11 {
            Some(JceType::StructEnd)
        } else if c == 12 {
            Some(JceType::Zero)
        } else if c == 13 {
            Some(JceType::Bytes)
        } else {
            None
        }
    }

    pub fn code(self) -> (r: u8)
        ensures
            r == self.spec_code(),
            r < 14,
    {
        match self {
            JceType::I8 => 0,
            JceType::I16 => 1,
            JceType::I32 => 2,
            JceType::I64 => 3,
            JceType::F32 => 4,
            JceType::F64 => 5,
            JceType::String1 => 6,
            JceType::String4 => 7,
            JceType::Mapping => 8,
            JceType::List => 9,
            JceType::StructBegin => 10,
            JceType::StructEnd => 11,
            JceType::Zero => 12,
            JceType::Bytes => 13,
        }
    }

    /// The type whose code is `c`; `UnknownJceType` when no type has it.
    pub fn from_code(c: u8) -> (r: Result<JceType, Error>)
        ensures
            r == (match JceType::spec_from_code(c) {
                Some(t) => Ok(t),
                None => Err(Error::UnknownJceType),
            }),
    {
        match c {
            0 => Ok(JceType::I8),
            1 => Ok(JceType::I16),
            2 => Ok(JceType::I32),
            3 => Ok(JceType::I64),
            4 => Ok(JceType::F32),
            5 => Ok(JceType::F64),
            6 => Ok(JceType::String1),
            7 => Ok(JceType::String4),
            8 => Ok(JceType::Mapping),
            9 => Ok(JceType::List),
            10 => Ok(JceType::StructBegin),
            11 => Ok(JceType::StructEnd),
            12 => Ok(JceType::Zero),
            13 => Ok(JceType::Bytes),
            _ => Err(Error::UnknownJceType),
        }
    }
}

impl TryFrom<u8> for JceType {
    type Error = Error;

    fn try_from(value: u8) -> (r: Result<JceType, Error>)
        ensures
            r == (match JceType::spec_from_code(value) {
                Some(t) => Ok(t),
                None => Err(Error::UnknownJceType),
            }),
    {
        JceType::from_code(value)
    }
}

impl vstd::std_specs::convert::TryFromSpecImpl<u8> for JceType {
    open spec fn obeys_try_from_spec() -> bool {
        true
    }

    open spec fn try_from_spec(value: u8) -> Result<JceType, Error> {
        match JceType::spec_from_code(value) {
            Some(t) => Ok(t),
            None => Err(Error::UnknownJceType),
        }
    }
}

} // verus!
