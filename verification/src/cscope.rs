//! A database and the symbols read from it.

use crate::block::blocks_at;
use crate::block::body_at;
use crate::block::lemma_body_is_blocks;
use crate::block::lemma_no_block_before_trailer;
use crate::block::lemma_truncated_block;
use crate::block::names_at;
use crate::block::parse_body;
use crate::block::with_symbols;
use crate::cursor::Cursor;
use crate::cursor::Stream;
use crate::error::FormatError;
use crate::error::ParseError;
use crate::header::header_at;
use crate::header::parse_header;
use crate::mark::FileMark;
use crate::render::has_function;
use crate::render::headings;
use crate::render::in_place;
use crate::render::layout;
use crate::render::lemma_listing_is_in_place;
use crate::render::lemma_one_heading_per_file;
use crate::render::rendered;
use crate::text::lemma_index_of;
use crate::text::split;
use crate::text::split_words;
use crate::text::views;
use crate::text::NEWLINE;
use crate::text::SPACE;
use crate::token::file_mark_at;
use crate::token::line_at;
use vstd::prelude::*;

verus! {

/// One entry of a file's block, as a value.
pub struct SymbolView {
    pub mark: FileMark,
    pub filename: Seq<char>,
    pub line_number: u64,
    pub name: Seq<char>,
    pub non_sym_text1: Seq<char>,
    pub non_sym_text2: Seq<char>,
}

/// One entry of a file's block: a symbol on a line of a source file, with the
/// text around it.
#[derive(Clone, Debug, PartialEq, Eq)]
pub struct Symbol {
    /// The kind of the symbol; `Unrecognized` where the entry has no mark.
    pub mark: FileMark,
    /// The path of the file whose block holds the entry.
    pub filename: String,
    /// The line of the file, as the entry gives it.
    pub line_number: u64,
    /// The symbol; empty where the entry has no mark.
    pub name: String,
    /// The text of the line before the symbol.
    pub non_sym_text1: String,
    /// The text after the symbol, without the white space around it and
    /// joined into one line.
    pub non_sym_text2: String,
}

impl View for Symbol {
    type V = SymbolView;

    open spec fn view(&self) -> SymbolView {
        SymbolView {
            mark: self.mark,
            filename: self.filename@,
            line_number: self.line_number,
            name: self.name@,
            non_sym_text1: self.non_sym_text1@,
            non_sym_text2: self.non_sym_text2@,
        }
    }
}

/// Every one of `symbols` is in the file `filename`.
pub open spec fn all_in_file(symbols: Seq<SymbolView>, filename: Seq<char>) -> bool {
    forall|j: int| 0 <= j < symbols.len() ==> (#[trigger] symbols[j]).filename == filename
}

/// A database, as a value.
pub struct CscopeView {
    pub version: u32,
    pub current_dir: Seq<char>,
    pub trailer_offset: u64,
    pub header_raw: Seq<u8>,
    pub symbols: Seq<SymbolView>,
}

impl CscopeView {
    /// The trailer does not start inside the header.
    pub open spec fn wf(self) -> bool {
        self.trailer_offset >= self.header_raw.len()
    }
}

/// A database: what its header says, and the symbols read from its blocks so
/// far, in the order in which they stand in the file.
#[derive(Clone, Debug, PartialEq, Eq)]
pub struct Cscope {
    /// The version of the format.
    pub version: u32,
    /// The directory in which the database was built.
    pub current_dir: String,
    /// The position at which the trailer starts.
    pub trailer_offset: u64,
    /// The header line as it was read, with the `NEWLINE` that ends it.
    pub header_raw: Vec<u8>,
    /// The symbols read so far.
    pub symbols: Vec<Symbol>,
}

impl View for Cscope {
    type V = CscopeView;

    open spec fn view(&self) -> CscopeView {
        CscopeView {
            version: self.version,
            current_dir: self.current_dir@,
            trailer_offset: self.trailer_offset,
            header_raw: self.header_raw@,
            symbols: self.symbols@.map_values(|s: Symbol| s@),
        }
    }
}

/// The word of the header that says that the database is not compressed: `-c`.
pub open spec fn uncompressed_flag() -> Seq<u8> {
    seq![0x2d, 0x63]
}

impl Cscope {
    /// Says whether `-c` stands among the words of the header, which is how a
    /// database says that its symbol data was written out in full.
    pub fn is_compressed(&self) -> (found: bool)
        ensures
            found == split(self@.header_raw, SPACE).contains(uncompressed_flag()),
    {
        let words: Vec<Vec<u8>> = split_words(self.header_raw.as_slice(), SPACE);
        let mut i: usize = 0;
        while i < words.len()
            invariant
                i <= words@.len(),
                views(words@) == split(self@.header_raw, SPACE),
                forall|k: int| 0 <= k < i ==> views(words@)[k] != uncompressed_flag(),
            decreases words@.len() - i,
        {
            let word: &Vec<u8> = &words[i];
            if word.len() == 2 && word[0] == 0x2d && word[1] == 0x63 {
                assert(views(words@)[i as int] == uncompressed_flag());
                return true;
            }
            i += 1;
        }
        false
    }
}

/// The database that was read, as a value, or the error in its place.
pub open spec fn view_of(r: Result<Cscope, ParseError>) -> Result<CscopeView, ParseError> {
    match r {
        Ok(cscope) => Ok(cscope@),
        Err(e) => Err(e),
    }
}

/// What the header at the start of `bytes` says.
pub open spec fn header_in(bytes: Seq<u8>) -> Result<CscopeView, ParseError> {
    header_at(Stream { bytes, pos: 0 }).value
}

/// The place in `bytes` at which the header ends and the symbol data starts.
pub open spec fn body_in(bytes: Seq<u8>) -> Stream {
    Stream { bytes, pos: header_at(Stream { bytes, pos: 0 }).pos }
}

/// The database that `bytes` hold: what the header at their start says, and
/// the symbols of the blocks between the header and the trailer. A header
/// without `-c` is of a database whose symbol data is compressed, which is
/// not read.
pub open spec fn database_of(bytes: Seq<u8>) -> Result<CscopeView, ParseError> {
    match header_in(bytes) {
        Err(e) => Err(e),
        Ok(cscope) => {
            let body = body_at(body_in(bytes), cscope.trailer_offset);
            if !split(cscope.header_raw, SPACE).contains(uncompressed_flag()) {
                Err(ParseError::UnsupportedInput)
            } else if body.error is Some {
                Err(body.error->0)
            } else {
                Ok(with_symbols(cscope, body.symbols))
            }
        },
    }
}

/// A database whose trailer starts where its header ends is empty: it is
/// read without an error, holds no symbol, and its listing is the empty text.
pub proof fn lemma_empty_database(bytes: Seq<u8>)
    requires
        header_in(bytes) is Ok,
        header_in(bytes)->Ok_0.trailer_offset == header_in(bytes)->Ok_0.header_raw.len(),
        split(header_in(bytes)->Ok_0.header_raw, SPACE).contains(uncompressed_flag()),
    ensures
        database_of(bytes) == header_in(bytes),
        database_of(bytes)->Ok_0.symbols == Seq::<SymbolView>::empty(),
        rendered(database_of(bytes)->Ok_0.symbols) == Seq::<char>::empty(),
{
    let cscope = header_in(bytes)->Ok_0;
    lemma_index_of(bytes, 0, NEWLINE);
    lemma_no_block_before_trailer(body_in(bytes), cscope.trailer_offset);
}

/// A database that ends with the path of its first block, before the empty
/// line that must follow the path, is an error of the format.
pub proof fn lemma_truncated_database(bytes: Seq<u8>)
    requires
        header_in(bytes) is Ok,
        split(header_in(bytes)->Ok_0.header_raw, SPACE).contains(uncompressed_flag()),
        body_in(bytes).pos < header_in(bytes)->Ok_0.trailer_offset,
        file_mark_at(body_in(bytes)).value == Ok::<FileMark, ParseError>(FileMark::File),
        line_at(body_in(bytes).at(file_mark_at(body_in(bytes)).pos)).value is Ok,
        line_at(body_in(bytes).at(file_mark_at(body_in(bytes)).pos)).pos == bytes.len(),
    ensures
        database_of(bytes) == Err::<CscopeView, ParseError>(
            ParseError::Format(FormatError::EmptyLine),
        ),
{
    lemma_index_of(bytes, 0, NEWLINE);
    lemma_truncated_block(body_in(bytes), header_in(bytes)->Ok_0.trailer_offset);
}

/// The symbols of each block of the database that `bytes` hold.
pub open spec fn blocks_in(bytes: Seq<u8>) -> Seq<Seq<SymbolView>> {
    blocks_at(body_in(bytes), header_in(bytes)->Ok_0.trailer_offset)
}

/// The path that each block of the database that `bytes` hold names.
pub open spec fn names_in(bytes: Seq<u8>) -> Seq<Seq<char>> {
    names_at(body_in(bytes), header_in(bytes)->Ok_0.trailer_offset)
}

/// Every file of a database gets one heading. Where each block holds a
/// function definition and names another file than the block before it, and
/// the first block names a file at all, the headings of the listing are the
/// names of the blocks, in the order of the blocks; and each heading stands
/// before the function definitions of its file.
pub proof fn lemma_one_heading_per_block(bytes: Seq<u8>)
    requires
        database_of(bytes) is Ok,
        forall|i: int|
            0 <= i < blocks_in(bytes).len() ==> has_function(#[trigger] blocks_in(bytes)[i]),
        forall|i: int|
            0 < i < names_in(bytes).len() ==> #[trigger] names_in(bytes)[i] != names_in(bytes)[i
                - 1],
        names_in(bytes).len() > 0 ==> names_in(bytes)[0] != Seq::<char>::empty(),
    ensures
        headings(layout(database_of(bytes)->Ok_0.symbols, Seq::empty())) == names_in(bytes),
        forall|k: int|
            0 <= k < layout(database_of(bytes)->Ok_0.symbols, Seq::empty()).len() ==> in_place(
                layout(database_of(bytes)->Ok_0.symbols, Seq::empty()),
                k,
                Seq::empty(),
            ),
{
    lemma_listing_is_in_place(database_of(bytes)->Ok_0.symbols, Seq::empty());
    let cscope = header_in(bytes)->Ok_0;
    lemma_index_of(bytes, 0, NEWLINE);
    lemma_body_is_blocks(body_in(bytes), cscope.trailer_offset);
    lemma_one_heading_per_file(blocks_in(bytes), names_in(bytes));
    assert(cscope.symbols + blocks_in(bytes).flatten() =~= blocks_in(bytes).flatten());
}

/// Reads the database that `data` holds.
pub fn parse_database(data: Vec<u8>) -> (r: Result<Cscope, ParseError>)
    ensures
        view_of(r) == database_of(data@),
        r matches Ok(cscope) ==> cscope@.wf(),
{
    let mut cur: Cursor = Cursor::new(data);
    let mut cscope: Cscope = match parse_header(&mut cur) {
        Ok(cscope) => cscope,
        Err(e) => {
            return Err(e);
        },
    };
    if !cscope.is_compressed() {
        return Err(ParseError::UnsupportedInput);
    }
    match parse_body(&mut cur, &mut cscope) {
        Ok(_) => Ok(cscope),
        Err(e) => Err(e),
    }
}

} // verus!
