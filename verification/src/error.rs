//! The library's error type.

use vstd::prelude::*;
use crate::text::{chars_of, string_from_chars};

verus! {

/// Everything that can go wrong while reading, building or writing a table.
/// Each variant carries a human-readable message (for `FieldNotFound`, the
/// normalized field name).
#[derive(Debug, Clone, PartialEq, Eq)]
pub enum Error {
    /// A read or write of the underlying storage failed (for an in-memory
    /// image: the data ended before a required byte).
    Io(String),
    InvalidFormat(String),
    Unsupported(String),
    FieldNotFound(String),
    InvalidFieldSpec(String),
    Overflow(String),
}

/// The variant of an [`Error`], without its message.
#[derive(Debug, Clone, Copy, PartialEq, Eq, Structural)]
pub enum ErrorKind {
    Io,
    InvalidFormat,
    Unsupported,
    FieldNotFound,
    InvalidFieldSpec,
    Overflow,
}

pub type Result<T> = core::result::Result<T, Error>;

impl Error {
    /// The variant of this error.
    pub open spec fn kind(&self) -> ErrorKind {
        match self {
            Error::Io(_) => ErrorKind::Io,
            Error::InvalidFormat(_) => ErrorKind::InvalidFormat,
            Error::Unsupported(_) => ErrorKind::Unsupported,
            Error::FieldNotFound(_) => ErrorKind::FieldNotFound,
            Error::InvalidFieldSpec(_) => ErrorKind::InvalidFieldSpec,
            Error::Overflow(_) => ErrorKind::Overflow,
        }
    }

    /// The text that the error displays.
    pub fn message(&self) -> (s: String)
        ensures
            s@ == match self {
                Error::FieldNotFound(name) => "field not found: "@ + name@,
                Error::Io(m) | Error::InvalidFormat(m) | Error::Unsupported(m) | Error::InvalidFieldSpec(m)
                | Error::Overflow(m) => m@,
            },
    {
        match self {
            Error::Io(m) => plain_message(m.as_str()),
            Error::InvalidFormat(m) => plain_message(m.as_str()),
            Error::Unsupported(m) => plain_message(m.as_str()),
            Error::FieldNotFound(name) => {
                let mut v = chars_of("field not found: ");
                let mut n = chars_of(name.as_str());
                v.append(&mut n);
                string_from_chars(v.as_slice())
            },
            Error::InvalidFieldSpec(m) => plain_message(m.as_str()),
            Error::Overflow(m) => plain_message(m.as_str()),
        }
    }
}

/// `prefix`, then `detail` in double quotes, then `suffix`: the shape of
/// most of the library's messages.
pub fn quoted_message(prefix: &str, detail: &[char], suffix: &str) -> (s: String)
    ensures
        s@ == prefix@ + seq!['"'] + detail@ + seq!['"'] + suffix@,
{
    let mut v = chars_of(prefix);
    v.push('"');
    let ghost head = v@;
    let mut i: usize = 0;
    while i < detail.len()
        invariant
            i <= detail@.len(),
            v@ == head + detail@.take(i as int),
        decreases detail.len() - i,
    {
        v.push(detail[i]);
        i += 1;
        proof {
            assert(v@ =~= head + detail@.take(i as int));
        }
    }
    proof {
        assert(detail@.take(detail@.len() as int) =~= detail@);
    }
    v.push('"');
    let mut s = chars_of(suffix);
    v.append(&mut s);
    proof {
        assert(v@ =~= prefix@ + seq!['"'] + detail@ + seq!['"'] + suffix@);
    }
    string_from_chars(v.as_slice())
}

/// A message made of a literal.
pub fn plain_message(text: &str) -> (s: String)
    ensures
        s@ == text@,
{
    text.to_owned()
}

} // verus!
