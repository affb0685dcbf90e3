//! What can be wrong with a database.

use vstd::prelude::*;

verus! {

/// The place at which the bytes break the format.
#[derive(Clone, Copy, Debug, PartialEq, Eq, Structural)]
pub enum FormatError {
    /// The header has fewer than four words, or does not start with the magic
    /// word.
    Header,
    /// The header's version is not a number.
    Version,
    /// The header's trailer offset is not a number, or lies inside the header.
    TrailerOffset,
    /// A mark does not start with a tab.
    Tab,
    /// A line that must be empty is not, or is missing.
    EmptyLine,
    /// An entry does not start with a line number.
    LineNumber,
    /// The bytes end before the empty line that closes an entry.
    Unterminated,
    /// A block does not start with the mark of a file.
    FileMark,
}

/// Why a database could not be read.
#[derive(Clone, Copy, Debug, PartialEq, Eq, Structural)]
pub enum ParseError {
    /// The bytes break the format.
    Format(FormatError),
    /// A field that must be text is not valid UTF-8.
    Encoding,
    /// The database is in a mode that this reader does not handle.
    UnsupportedInput,
}

} // verus!
