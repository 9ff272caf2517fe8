//! The error type shared by parsing and evaluation.

use vstd::prelude::*;

verus! {

/// A commit identity: the bytes of its hash, compared byte-exact.
pub type Vertex = Vec<u8>;

/// What a query can fail with.
#[derive(Debug)]
pub enum Error {
    /// A short commit hash resolves to several commits; carries them all.
    AmbiguousPrefix(Vec<Vertex>),
    /// A name that is no known alias, reference or commit hash.
    UnresolvedName(String),
    /// A function call with the wrong number of arguments: carries the
    /// function name, the expected count and the actual count.
    MismatchedArguments(String, usize, usize),
    /// A function expected a literal name argument; carries the canonical
    /// text of the offending subexpression.
    ExpectString(String),
    /// Malformed expression text or date-range spec: a message, and the
    /// character position where parsing stopped (zero where none applies).
    ParseError(String, usize),
    /// Alias expansion exceeded the evaluation depth bound.
    RecursionLimit,
}

/// The mathematical shape of an error.
pub enum ErrorV {
    AmbiguousPrefix(Seq<Seq<u8>>),
    UnresolvedName(Seq<char>),
    MismatchedArguments(Seq<char>, int, int),
    ExpectString(Seq<char>),
    ParseError(int),
    RecursionLimit,
}

impl View for Error {
    type V = ErrorV;

    open spec fn view(&self) -> ErrorV {
        match self {
            Error::AmbiguousPrefix(vs) => ErrorV::AmbiguousPrefix(vs.deep_view()),
            Error::UnresolvedName(s) => ErrorV::UnresolvedName(s@),
            Error::MismatchedArguments(f, want, got) => ErrorV::MismatchedArguments(
                f@,
                *want as int,
                *got as int,
            ),
            Error::ExpectString(s) => ErrorV::ExpectString(s@),
            Error::ParseError(_, pos) => ErrorV::ParseError(*pos as int),
            Error::RecursionLimit => ErrorV::RecursionLimit,
        }
    }
}

} // verus!
