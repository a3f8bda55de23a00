//! The errors that reading or writing a value can end in.
use vstd::prelude::*;

verus! {

/// Declares `std::io::Error`, opaque, so that `Error::ReadIo` can carry the cause of a
/// failed read or write; nothing here looks inside it.
#[verifier::external_type_specification]
#[verifier::external_body]
pub struct ExIoError(std::io::Error);

/// Why a raw value could not be turned into a typed one.
#[derive(Debug, Clone, PartialEq, Eq)]
pub enum ParseError {
    /// Not one of the boolean words.
    Bool,
    /// Not a decimal integer, or out of the type's range.
    Integer,
    /// Not exactly one character.
    Char,
    /// A failure described by a parser outside this library.
    Other(String),
}

#[derive(Debug)]
pub enum Error {
    /// Reading the source or writing the destination failed.
    ReadIo(std::io::Error),
    /// The key occurs more than once in the section, under `DuplicateKeyStrategy::Error`.
    DuplicateKey { key: String, section: Option<String> },
    /// The raw value could not be parsed into the requested type.
    Parse(ParseError),
    /// The source holds more bytes than the configured limit.
    TooLarge { limit: u64, found: u64 },
}

impl Error {
    /// Wraps a parse failure.
    pub fn new_parse(err: ParseError) -> (r: Error)
        ensures
            r == Error::Parse(err),
    {
        Error::Parse(err)
    }
}

} // verus!
