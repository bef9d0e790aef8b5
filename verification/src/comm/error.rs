use vstd::prelude::*;

verus! {

/// What can go wrong while reading the wire format.
#[derive(Clone, Debug, PartialEq, Eq)]
pub enum Error {
    /// A message produced by the code that drives the reader.
    Message(String),
    /// The input ended before the value did.
    Eof,
    /// The input does not start any known kind of value.
    Syntax,
    ExpectedBoolean,
    ExpectedInteger,
    ExpectedUnsignedInteger,
    ExpectedDouble,
    ExpectedChar,
    ExpectedString,
    ExpectedBytes,
    ExpectedNull,
    ExpectedArray,
    ExpectedArrayComma,
    ExpectedArrayEnd,
    ExpectedMap,
    ExpectedMapColon,
    ExpectedMapComma,
    ExpectedMapEnd,
    ExpectedEnum,
    /// A value was not followed by `DELIMITER_CHAR`.
    MissingDelimiter,
    /// Input is left over after the value.
    TrailingCharacters,
}

/// Result of reading the wire format.
pub type Result<T> = core::result::Result<T, Error>;

} // verus!
