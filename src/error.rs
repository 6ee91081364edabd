use vstd::prelude::*;

use crate::numeric::{decimal_of, format_u64};

verus! {

/// The two kinds of bracketed containers that a parse can leave open.
#[derive(Debug, Clone, Copy, PartialEq, Eq, Structural)]
pub enum Iterable {
    Tuple,
    Array,
}

impl Iterable {
    /// The word used for this kind in error messages.
    pub open spec fn spec_name(self) -> Seq<char> {
        match self {
            Iterable::Tuple => seq!['t', 'u', 'p', 'l', 'e'],
            Iterable::Array => seq!['a', 'r', 'r', 'a', 'y'],
        }
    }

    pub fn name(&self) -> (r: String)
        ensures
            r@ == self.spec_name(),
    {
        match self {
            Iterable::Tuple => {
                let r = String::from_str("tuple");
                proof { reveal_strlit("tuple"); }
                r
            },
            Iterable::Array => {
                let r = String::from_str("array");
                proof { reveal_strlit("array"); }
                r
            },
        }
    }
}


/// The errors of the codec. Every variant but `Message` carries the line and
/// column (both counted from 1) of the token at which recognition failed.
#[derive(Debug, Clone, PartialEq, Eq)]
pub enum Error {
    Message(String),
    UnrecognizedSyntax(u32, u32),
    SequenceKeptOpen(Iterable, u32, u32),
    InvalidKey(u32, u32),
    InvalidValue(u32, u32),
}

/// `(line:column)`, as error messages write a position.
pub open spec fn location_text(line: u32, column: u32) -> Seq<char> {
    "("@ + decimal_of(line as int) + ":"@ + decimal_of(column as int) + ")"@
}

impl Error {
    /// The human-readable message of an error.
    pub open spec fn spec_text(self) -> Seq<char> {
        match self {
            Error::Message(msg) => msg@,
            Error::UnrecognizedSyntax(l, c) =>
                "syntax could not be properly parsed "@ + location_text(l, c),
            Error::SequenceKeptOpen(kind, l, c) =>
                "the "@ + kind.spec_name() + " at location "@ + location_text(l, c)
                    + " was kept open"@,
            Error::InvalidKey(l, c) => "key at location "@ + location_text(l, c) + " is invalid"@,
            Error::InvalidValue(l, c) =>
                "value at location "@ + location_text(l, c) + " was invalid"@,
        }
    }

    /// An error that carries a free-form message unchanged.
    pub fn custom(msg: &str) -> (r: Error)
        ensures
            r matches Error::Message(m) && m@ == msg@,
            r.spec_text() == msg@,
    {
        Error::Message(String::from_str(msg))
    }

    /// The human-readable message of this error.
    pub fn describe(&self) -> (r: String)
        ensures
            r@ == self.spec_text(),
    {
        match self {
            Error::Message(msg) => msg.clone(),
            Error::UnrecognizedSyntax(l, c) => {
                let mut r = String::from_str("syntax could not be properly parsed ");
                append_location(&mut r, *l, *c);
                r
            },
            Error::SequenceKeptOpen(kind, l, c) => {
                let mut r = String::from_str("the ");
                let name = kind.name();
                r.append(name.as_str());
                r.append(" at location ");
                append_location(&mut r, *l, *c);
                r.append(" was kept open");
                r
            },
            Error::InvalidKey(l, c) => {
                let mut r = String::from_str("key at location ");
                append_location(&mut r, *l, *c);
                r.append(" is invalid");
                r
            },
            Error::InvalidValue(l, c) => {
                let mut r = String::from_str("value at location ");
                append_location(&mut r, *l, *c);
                r.append(" was invalid");
                r
            },
        }
    }
}

fn append_location(out: &mut String, line: u32, column: u32)
    ensures
        final(out)@ == old(out)@ + location_text(line, column),
{
    out.append("(");
    let l = format_u64(line as u64);
    out.append(l.as_str());
    out.append(":");
    let c = format_u64(column as u64);
    out.append(c.as_str());
    out.append(")");
}

} // verus!
