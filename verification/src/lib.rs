//! A reader for cscope cross-reference databases.
//!
//! A database is a file of lines. Its first line is the header:
//!
//! ```text
//! cscope <version> <directory> [<flag>...] <trailer offset>
//! ```
//!
//! The symbol data follows: one block for each source file, which is a tab,
//! `@` and the path of the file, an empty line, and the entries of the file.
//! An entry is
//!
//! ```text
//! <line number> <text>
//! [<tab><kind>]<symbol>
//! <text>
//! ...
//! <empty line>
//! ```
//!
//! The trailer starts at the offset that the header gives. It is not read.
//!
//! The database is read from a buffer of bytes:
//!
//! - [`cursor`] holds the buffer and the position in it;
//! - [`text`] cuts, trims and decodes byte strings;
//! - [`mark`] names the kinds of symbols;
//! - [`token`] reads the fields: marks, lines, line numbers;
//! - [`header`] reads the header;
//! - [`block`] reads the blocks, up to the trailer;
//! - [`cscope`] holds the database and reads it as a whole;
//! - [`render`] lists the function definitions of a database, file by file;
//! - [`error`] names what can be wrong.
//!
//! Every reader is specified by a function of the bytes and the position at
//! which it starts, and proved to compute it.

pub mod block;
pub mod cscope;
pub mod cursor;
pub mod error;
pub mod header;
pub mod mark;
pub mod render;
pub mod text;
pub mod token;
