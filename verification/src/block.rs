//! The blocks of a database: one per source file, each a run of entries.

use crate::cscope::all_in_file;
use crate::cscope::Cscope;
use crate::cscope::CscopeView;
use crate::cscope::Symbol;
use crate::cscope::SymbolView;
use crate::cursor::Cursor;
use crate::cursor::Stream;
use crate::error::FormatError;
use crate::error::ParseError;
use crate::mark::mark_of;
use crate::mark::FileMark;
use crate::text::as_one_line;
use crate::text::lemma_index_of;
use crate::text::lemma_index_of_same_after;
use crate::text::lemma_index_of_same_before;
use crate::text::one_line;
use crate::text::NEWLINE;
use crate::text::SPACE;
use crate::text::TAB;
use crate::token::at_file_mark;
use crate::token::at_filemark;
use crate::token::empty_line_at;
use crate::token::empty_line_from;
use crate::token::file_mark_at;
use crate::token::lemma_empty_line_from;
use crate::token::lemma_empty_line_from_same_after;
use crate::token::line_at;
use crate::token::line_number_at;
use crate::token::optional_mark_at;
use crate::token::parse_empty_line;
use crate::token::parse_file_mark;
use crate::token::parse_file_path;
use crate::token::parse_line_number_and_blank;
use crate::token::parse_optional_mark;
use crate::token::parse_symbol;
use crate::token::parse_to_end;
use crate::token::parse_until_empty_line;
use crate::token::peek;
use crate::token::peek_at;
use crate::token::symbol_at;
use crate::token::until_empty_line_at;
use crate::token::Outcome;
use vstd::prelude::*;

verus! {

/// How far the trailer's offset lies past the place at which the last block
/// ends: the length of the mark that closes the symbol data.
pub const END_MARK_LEN: u64 = 3;

/// What reading a stretch of a database does: the symbols that it adds, where
/// it leaves the cursor, and the error that stopped it, if one did.
pub struct Trace {
    pub symbols: Seq<SymbolView>,
    pub pos: int,
    pub error: Option<ParseError>,
}

impl Trace {
    /// Nothing is read.
    pub open spec fn stop(pos: int) -> Trace {
        Trace { symbols: Seq::empty(), pos, error: None }
    }

    /// Nothing is added, and `e` stops the reading at `pos`.
    pub open spec fn fail(pos: int, e: ParseError) -> Trace {
        Trace { symbols: Seq::empty(), pos, error: Some(e) }
    }

    /// `symbols` are added, and then what `self` adds.
    pub open spec fn after(self, symbols: Seq<SymbolView>) -> Trace {
        Trace { symbols: symbols + self.symbols, pos: self.pos, error: self.error }
    }

    /// What the reader returns.
    pub open spec fn result(self) -> Result<(), ParseError> {
        match self.error {
            None => Ok(()),
            Some(e) => Err(e),
        }
    }
}

/// What an entry's symbol is read as, given the mark that was found before it.
/// The line of the symbol is read in either case, and must be text. With a
/// mark the symbol is what the line holds; without one the symbol is empty.
pub open spec fn entry_name_at(s: Stream, mark: Option<FileMark>) -> Outcome<Seq<char>> {
    let line = symbol_at(s);
    Outcome {
        value: match line.value {
            Ok(text) => Ok(
                if mark is Some {
                    text
                } else {
                    Seq::empty()
                },
            ),
            Err(e) => Err(e),
        },
        pos: line.pos,
    }
}

/// One entry: a line number and a space; the text up to the end of the line;
/// then a mark, where a tab follows, and the line of the symbol; then the
/// lines up to the first empty one, which the symbol holds joined into one.
/// The fields are read in this order and the first that fails stops the
/// reading where it failed.
pub open spec fn entry_at(s: Stream, filename: Seq<char>) -> Outcome<SymbolView> {
    let number = line_number_at(s);
    let leading = line_at(s.at(number.pos));
    let mark = optional_mark_at(s.at(leading.pos));
    let name = entry_name_at(s.at(mark.pos), mark.value->Ok_0);
    let trailing = until_empty_line_at(s.at(name.pos));
    if number.value is Err {
        Outcome { value: Err(number.value->Err_0), pos: number.pos }
    } else if leading.value is Err {
        Outcome { value: Err(leading.value->Err_0), pos: leading.pos }
    } else if name.value is Err {
        Outcome { value: Err(name.value->Err_0), pos: name.pos }
    } else if trailing.value is Err {
        Outcome { value: Err(trailing.value->Err_0), pos: trailing.pos }
    } else {
        Outcome {
            value: Ok(
                SymbolView {
                    mark: match mark.value->Ok_0 {
                        Some(kind) => kind,
                        None => FileMark::Unrecognized,
                    },
                    filename,
                    line_number: number.value->Ok_0,
                    name: name.value->Ok_0,
                    non_sym_text1: leading.value->Ok_0,
                    non_sym_text2: one_line(trailing.value->Ok_0),
                },
            ),
            pos: trailing.pos,
        }
    }
}

/// The entries of a block, from `s.pos` on. There are none where the trailer
/// starts at or before `s.pos`, or where the mark of a file stands there.
/// Otherwise an entry is read; a tab after it ends the block, and anything
/// else is the start of the next entry.
pub open spec fn entries_at(s: Stream, trailer: u64, filename: Seq<char>) -> Trace
    decreases s.bytes.len() - s.pos,
    when s.wf()
    via entries_at_decreases
{
    if s.pos >= trailer || at_file_mark(s) {
        Trace::stop(s.pos)
    } else {
        let entry = entry_at(s, filename);
        match entry.value {
            Err(e) => Trace::fail(entry.pos, e),
            Ok(symbol) => if peek_at(s.at(entry.pos)) == TAB {
                Trace::stop(entry.pos).after(seq![symbol])
            } else {
                entries_at(s.at(entry.pos), trailer, filename).after(seq![symbol])
            },
        }
    }
}

#[via_fn]
proof fn entries_at_decreases(s: Stream, trailer: u64, filename: Seq<char>) {
    lemma_entry_moves(s, filename);
}

/// An entry that is read takes at least one byte, and ends in the bytes.
pub proof fn lemma_entry_moves(s: Stream, filename: Seq<char>)
    requires
        s.wf(),
    ensures
        s.pos <= entry_at(s, filename).pos <= s.bytes.len(),
        entry_at(s, filename).value is Ok ==> s.pos < entry_at(s, filename).pos,
{
    let number = line_number_at(s);
    lemma_index_of(s.bytes, s.pos, SPACE);
    let leading = line_at(s.at(number.pos));
    lemma_index_of(s.bytes, number.pos, NEWLINE);
    let mark = optional_mark_at(s.at(leading.pos));
    let name = entry_name_at(s.at(mark.pos), mark.value->Ok_0);
    lemma_index_of(s.bytes, mark.pos, NEWLINE);
    lemma_empty_line_from(s.bytes, name.pos);
}

/// A block: the mark of a file, the file's path up to the end of the line, an
/// empty line, and the file's entries.
pub open spec fn block_at(s: Stream, trailer: u64) -> Trace {
    let mark = file_mark_at(s);
    let path = line_at(s.at(mark.pos));
    let empty = empty_line_at(s.at(path.pos));
    if mark.value is Err {
        Trace::fail(mark.pos, mark.value->Err_0)
    } else if mark.value->Ok_0 != FileMark::File {
        Trace::fail(mark.pos, ParseError::Format(FormatError::FileMark))
    } else if path.value is Err {
        Trace::fail(path.pos, path.value->Err_0)
    } else if empty.value is Err {
        Trace::fail(empty.pos, empty.value->Err_0)
    } else {
        entries_at(s.at(empty.pos), trailer, path.value->Ok_0)
    }
}

/// A block that is read takes at least one byte, and ends in the bytes.
pub proof fn lemma_block_moves(s: Stream, trailer: u64)
    requires
        s.wf(),
    ensures
        s.pos <= block_at(s, trailer).pos <= s.bytes.len(),
        block_at(s, trailer).error is None ==> s.pos < block_at(s, trailer).pos,
{
    let mark = file_mark_at(s);
    let path = line_at(s.at(mark.pos));
    lemma_index_of(s.bytes, mark.pos, NEWLINE);
    let empty = empty_line_at(s.at(path.pos));
    lemma_entries_move(s.at(empty.pos), trailer, path.value->Ok_0);
}

/// The entries of a block end in the bytes, and not before their start.
pub proof fn lemma_entries_move(s: Stream, trailer: u64, filename: Seq<char>)
    requires
        s.wf(),
    ensures
        s.pos <= entries_at(s, trailer, filename).pos <= s.bytes.len(),
    decreases s.bytes.len() - s.pos,
{
    lemma_entry_moves(s, filename);
    let entry = entry_at(s, filename);
    if !(s.pos >= trailer || at_file_mark(s)) && entry.value is Ok && peek_at(s.at(entry.pos))
        != TAB {
        lemma_entries_move(s.at(entry.pos), trailer, filename);
    }
}

/// The symbol data: block after block, from `s.pos` up to the trailer. No
/// block is read where the trailer starts at or before `s.pos`. After a block,
/// the reading also ends where only the closing mark lies between the cursor
/// and the trailer.
pub open spec fn body_at(s: Stream, trailer: u64) -> Trace
    decreases s.bytes.len() - s.pos,
    when s.wf()
    via body_at_decreases
{
    if s.pos >= trailer {
        Trace::stop(s.pos)
    } else {
        let block = block_at(s, trailer);
        if block.error is Some || block.pos + END_MARK_LEN == trailer {
            block
        } else {
            body_at(s.at(block.pos), trailer).after(block.symbols)
        }
    }
}

#[via_fn]
proof fn body_at_decreases(s: Stream, trailer: u64) {
    lemma_block_moves(s, trailer);
}

/// Every symbol of a block is in the file that the block names.
pub proof fn lemma_entries_in_file(s: Stream, trailer: u64, filename: Seq<char>)
    requires
        s.wf(),
    ensures
        all_in_file(entries_at(s, trailer, filename).symbols, filename),
    decreases s.bytes.len() - s.pos,
{
    lemma_entry_moves(s, filename);
    let entry = entry_at(s, filename);
    if !(s.pos >= trailer || at_file_mark(s)) && entry.value is Ok {
        if peek_at(s.at(entry.pos)) != TAB {
            lemma_entries_in_file(s.at(entry.pos), trailer, filename);
        }
    }
}

/// The path that the block at `s.pos` names.
pub open spec fn block_name_at(s: Stream) -> Seq<char> {
    line_at(s.at(file_mark_at(s).pos)).value->Ok_0
}

/// Every symbol of a block is in the file that the block names.
pub proof fn lemma_block_in_file(s: Stream, trailer: u64)
    requires
        s.wf(),
    ensures
        all_in_file(block_at(s, trailer).symbols, block_name_at(s)),
{
    let mark = file_mark_at(s);
    let path = line_at(s.at(mark.pos));
    lemma_index_of(s.bytes, mark.pos, NEWLINE);
    let empty = empty_line_at(s.at(path.pos));
    lemma_entries_in_file(s.at(empty.pos), trailer, path.value->Ok_0);
}

/// A block whose bytes end with the line of its path, before the empty line
/// that must follow, is an error of the format.
pub proof fn lemma_truncated_block(s: Stream, trailer: u64)
    requires
        s.wf(),
        file_mark_at(s).value == Ok::<FileMark, ParseError>(FileMark::File),
        line_at(s.at(file_mark_at(s).pos)).value is Ok,
        line_at(s.at(file_mark_at(s).pos)).pos == s.bytes.len(),
    ensures
        block_at(s, trailer).error == Some(ParseError::Format(FormatError::EmptyLine)),
        block_at(s, trailer).symbols.len() == 0,
{
}

/// Where the symbol data is read without an error, the cursor ends at the
/// trailer or past it, or before the mark that closes the symbol data.
pub proof fn lemma_body_ends(s: Stream, trailer: u64)
    requires
        s.wf(),
    ensures
        s.pos <= body_at(s, trailer).pos <= s.bytes.len(),
        body_at(s, trailer).error is None ==> body_at(s, trailer).pos >= trailer || body_at(
            s,
            trailer,
        ).pos + END_MARK_LEN == trailer,
    decreases s.bytes.len() - s.pos,
{
    if s.pos < trailer {
        let block = block_at(s, trailer);
        lemma_block_moves(s, trailer);
        if !(block.error is Some || block.pos + END_MARK_LEN == trailer) {
            lemma_body_ends(s.at(block.pos), trailer);
        }
    }
}

/// Where the trailer starts at or before the cursor, no block is read.
pub proof fn lemma_no_block_before_trailer(s: Stream, trailer: u64)
    requires
        s.wf(),
        s.pos >= trailer,
    ensures
        body_at(s, trailer) == Trace::stop(s.pos),
{
}

/// Where one block is read and ends where the trailer starts, it is the whole
/// of the symbol data, and the cursor ends at the trailer.
pub proof fn lemma_single_block(s: Stream, trailer: u64)
    requires
        s.wf(),
        s.pos < trailer,
        block_at(s, trailer).error is None,
        block_at(s, trailer).pos == trailer,
    ensures
        body_at(s, trailer).symbols == block_at(s, trailer).symbols,
        body_at(s, trailer).pos == trailer,
        body_at(s, trailer).error is None,
{
    let block = block_at(s, trailer);
    lemma_block_moves(s, trailer);
    assert(body_at(s.at(block.pos), trailer) == Trace::stop(block.pos));
}

/// Where the byte that names the kind of an entry's symbol stands: after the
/// entry's first line and the tab that follows it.
pub open spec fn kind_at(s: Stream) -> int {
    line_at(s.at(line_number_at(s).pos)).pos + 1
}

/// `symbol` as a symbol of the kind `mark`.
pub open spec fn with_mark(symbol: SymbolView, mark: FileMark) -> SymbolView {
    SymbolView {
        mark,
        filename: symbol.filename,
        line_number: symbol.line_number,
        name: symbol.name,
        non_sym_text1: symbol.non_sym_text1,
        non_sym_text2: symbol.non_sym_text2,
    }
}

/// No mark stops the reading. Of an entry with a mark, the byte that names the
/// kind decides the kind of the symbol and nothing else: with any other byte
/// in its place the entry is read up to the same place, fails on the same
/// error or gives the same symbol, of the kind that the other byte names.
pub proof fn lemma_any_mark_is_read(s: Stream, other: Stream, filename: Seq<char>)
    requires
        s.wf(),
        peek_at(s.at(kind_at(s) - 1)) == TAB,
        kind_at(s) < s.bytes.len(),
        other.pos == s.pos,
        other.bytes.len() == s.bytes.len(),
        forall|i: int|
            0 <= i < s.bytes.len() && i != kind_at(s) ==> other.bytes[i] == s.bytes[i],
    ensures
        entry_at(other, filename).pos == entry_at(s, filename).pos,
        entry_at(s, filename).value is Err ==> entry_at(other, filename).value == entry_at(
            s,
            filename,
        ).value,
        entry_at(s, filename).value is Ok ==> entry_at(other, filename).value == Ok::<
            SymbolView,
            ParseError,
        >(with_mark(entry_at(s, filename).value->Ok_0, mark_of(other.bytes[kind_at(s)]))),
{
    let a = s.bytes;
    let b = other.bytes;
    let kind = kind_at(s);
    let number = line_number_at(s);
    lemma_index_of(a, s.pos, SPACE);
    lemma_index_of(a, number.pos, NEWLINE);
    lemma_index_of_same_before(a, b, s.pos, SPACE, kind);
    assert(a.subrange(s.pos, number.pos) =~= b.subrange(s.pos, number.pos));
    let leading = line_at(s.at(number.pos));
    lemma_index_of_same_before(a, b, number.pos, NEWLINE, kind);
    assert(a.subrange(number.pos, leading.pos) =~= b.subrange(number.pos, leading.pos));
    let from = kind + 1;
    lemma_index_of(a, from, NEWLINE);
    lemma_index_of_same_after(a, b, from, NEWLINE);
    let name = symbol_at(s.at(from));
    assert(a.subrange(from, name.pos) =~= b.subrange(from, name.pos));
    lemma_empty_line_from(a, name.pos);
    lemma_empty_line_from_same_after(a, b, name.pos);
    let at = empty_line_from(a, name.pos);
    assert(a.subrange(name.pos, at) =~= b.subrange(name.pos, at));
}

/// The symbols of each block of the symbol data, block by block.
pub open spec fn blocks_at(s: Stream, trailer: u64) -> Seq<Seq<SymbolView>>
    decreases s.bytes.len() - s.pos,
    when s.wf()
    via blocks_at_decreases
{
    if s.pos >= trailer {
        Seq::empty()
    } else {
        let block = block_at(s, trailer);
        if block.error is Some || block.pos + END_MARK_LEN == trailer {
            seq![block.symbols]
        } else {
            seq![block.symbols] + blocks_at(s.at(block.pos), trailer)
        }
    }
}

#[via_fn]
proof fn blocks_at_decreases(s: Stream, trailer: u64) {
    lemma_block_moves(s, trailer);
}

/// The path that each block of the symbol data names, block by block.
pub open spec fn names_at(s: Stream, trailer: u64) -> Seq<Seq<char>>
    decreases s.bytes.len() - s.pos,
    when s.wf()
    via names_at_decreases
{
    if s.pos >= trailer {
        Seq::empty()
    } else {
        let block = block_at(s, trailer);
        if block.error is Some || block.pos + END_MARK_LEN == trailer {
            seq![block_name_at(s)]
        } else {
            seq![block_name_at(s)] + names_at(s.at(block.pos), trailer)
        }
    }
}

#[via_fn]
proof fn names_at_decreases(s: Stream, trailer: u64) {
    lemma_block_moves(s, trailer);
}

/// The symbols of the symbol data are those of its blocks, one block after
/// another, and each block's symbols are in the file that the block names.
pub proof fn lemma_body_is_blocks(s: Stream, trailer: u64)
    requires
        s.wf(),
    ensures
        body_at(s, trailer).symbols == blocks_at(s, trailer).flatten(),
        blocks_at(s, trailer).len() == names_at(s, trailer).len(),
        forall|i: int|
            0 <= i < blocks_at(s, trailer).len() ==> all_in_file(
                #[trigger] blocks_at(s, trailer)[i],
                names_at(s, trailer)[i],
            ),
    decreases s.bytes.len() - s.pos,
{
    if s.pos < trailer {
        let block = block_at(s, trailer);
        lemma_block_moves(s, trailer);
        lemma_block_in_file(s, trailer);
        let here = seq![block.symbols];
        if block.error is Some || block.pos + END_MARK_LEN == trailer {
            assert(here.flatten() =~= block.symbols) by {
                reveal_with_fuel(Seq::flatten, 2);
            }
        } else {
            let next = s.at(block.pos);
            lemma_body_is_blocks(next, trailer);
            assert((here + blocks_at(next, trailer)).drop_first() =~= blocks_at(next, trailer));
        }
    }
}

/// `cscope` with `symbols` after those that it holds.
pub open spec fn with_symbols(cscope: CscopeView, symbols: Seq<SymbolView>) -> CscopeView {
    CscopeView {
        version: cscope.version,
        current_dir: cscope.current_dir,
        trailer_offset: cscope.trailer_offset,
        header_raw: cscope.header_raw,
        symbols: cscope.symbols + symbols,
    }
}

/// Reads one entry of the block of the file `filename`.
fn parse_entry(cur: &mut Cursor, filename: &String) -> (r: Result<Symbol, ParseError>)
    ensures
        final(cur)@.bytes == old(cur)@.bytes,
        final(cur)@.pos == entry_at(old(cur)@, filename@).pos,
        r matches Ok(symbol) ==> entry_at(old(cur)@, filename@).value == Ok::<
            SymbolView,
            ParseError,
        >(symbol@),
        r matches Err(e) ==> entry_at(old(cur)@, filename@).value == Err::<
            SymbolView,
            ParseError,
        >(e),
{
    let line_number: u64 = match parse_line_number_and_blank(cur) {
        Ok(n) => n,
        Err(e) => {
            return Err(e);
        },
    };
    let non_sym_text1: String = match parse_to_end(cur) {
        Ok(text) => text,
        Err(e) => {
            return Err(e);
        },
    };
    let found: Option<FileMark> = match parse_optional_mark(cur) {
        Ok(found) => found,
        Err(e) => {
            return Err(e);
        },
    };
    let line: String = match parse_symbol(cur) {
        Ok(text) => text,
        Err(e) => {
            return Err(e);
        },
    };
    let (mark, name) = match found {
        Some(kind) => (kind, line),
        None => (FileMark::Unrecognized, String::new()),
    };
    let non_sym_text2: String = match parse_until_empty_line(cur) {
        Ok(text) => as_one_line(text.as_str()),
        Err(e) => {
            return Err(e);
        },
    };
    Ok(Symbol { mark, filename: filename.clone(), line_number, name, non_sym_text1, non_sym_text2 })
}

/// Reads the block of one file and adds its symbols to `cscope`. An error
/// stops the reading; the symbols read before it stay.
pub fn parse_symbol_data(cur: &mut Cursor, cscope: &mut Cscope) -> (r: Result<(), ParseError>)
    ensures
        final(cur)@.bytes == old(cur)@.bytes,
        final(cur)@.pos == block_at(old(cur)@, old(cscope)@.trailer_offset).pos,
        final(cscope)@ == with_symbols(
            old(cscope)@,
            block_at(old(cur)@, old(cscope)@.trailer_offset).symbols,
        ),
        r == block_at(old(cur)@, old(cscope)@.trailer_offset).result(),
        final(cscope)@.wf() == old(cscope)@.wf(),
{
    let ghost before = cscope@;
    assert(cscope@ =~= with_symbols(before, Seq::empty()));
    let mark: FileMark = match parse_file_mark(cur) {
        Ok(mark) => mark,
        Err(e) => {
            return Err(e);
        },
    };
    if mark != FileMark::File {
        return Err(ParseError::Format(FormatError::FileMark));
    }
    let filename: String = match parse_file_path(cur) {
        Ok(text) => text,
        Err(e) => {
            return Err(e);
        },
    };
    match parse_empty_line(cur) {
        Ok(_) => {},
        Err(e) => {
            return Err(e);
        },
    }
    let ghost trailer = cscope@.trailer_offset;
    let ghost whole = entries_at(cur@, trailer, filename@);
    let ghost added = Seq::<SymbolView>::empty();
    while cur.position() < cscope.trailer_offset
        invariant
            cur@.bytes == old(cur)@.bytes,
            cur@.wf(),
            trailer == before.trailer_offset,
            before == old(cscope)@,
            whole == block_at(old(cur)@, trailer),
            cscope@ == with_symbols(before, added),
            whole.symbols == added + entries_at(cur@, trailer, filename@).symbols,
            whole.pos == entries_at(cur@, trailer, filename@).pos,
            whole.error == entries_at(cur@, trailer, filename@).error,
        decreases cur@.bytes.len() - cur@.pos,
    {
        if at_filemark(cur) {
            return Ok(());
        }
        let ghost from = cur@;
        let symbol: Symbol = match parse_entry(cur, &filename) {
            Ok(symbol) => symbol,
            Err(e) => {
                return Err(e);
            },
        };
        proof {
            lemma_entry_moves(from, filename@);
            let rest = if peek_at(cur@) == TAB {
                Trace::stop(cur@.pos)
            } else {
                entries_at(cur@, trailer, filename@)
            };
            assert(added + (seq![symbol@] + rest.symbols) =~= added.push(symbol@) + rest.symbols);
            let held = cscope.symbols@;
            assert(held.push(symbol).map_values(|s: Symbol| s@) =~= held.map_values(
                |s: Symbol| s@,
            ).push(symbol@));
            assert(before.symbols + added.push(symbol@) =~= (before.symbols + added).push(
                symbol@,
            ));
            added = added.push(symbol@);
        }
        cscope.symbols.push(symbol);
        if peek(cur) == TAB {
            return Ok(());
        }
    }
    Ok(())
}

/// Reads the blocks up to the trailer and adds their symbols to `cscope`. An
/// error stops the reading; the symbols read before it stay.
pub fn parse_body(cur: &mut Cursor, cscope: &mut Cscope) -> (r: Result<(), ParseError>)
    ensures
        final(cur)@.bytes == old(cur)@.bytes,
        final(cur)@.pos == body_at(old(cur)@, old(cscope)@.trailer_offset).pos,
        final(cscope)@ == with_symbols(
            old(cscope)@,
            body_at(old(cur)@, old(cscope)@.trailer_offset).symbols,
        ),
        r == body_at(old(cur)@, old(cscope)@.trailer_offset).result(),
        final(cscope)@.wf() == old(cscope)@.wf(),
        r is Ok ==> final(cur)@.pos >= old(cscope)@.trailer_offset || final(cur)@.pos
            + END_MARK_LEN == old(cscope)@.trailer_offset,
{
    let ghost before = cscope@;
    let ghost trailer = cscope@.trailer_offset;
    let ghost added = Seq::<SymbolView>::empty();
    proof {
        cur.lemma_wf();
        lemma_body_ends(cur@, trailer);
    }
    while cur.position() < cscope.trailer_offset
        invariant
            cur@.bytes == old(cur)@.bytes,
            cur@.wf(),
            before == old(cscope)@,
            trailer == before.trailer_offset,
            cscope@ == with_symbols(before, added),
            body_at(old(cur)@, trailer).symbols == added + body_at(cur@, trailer).symbols,
            body_at(old(cur)@, trailer).pos == body_at(cur@, trailer).pos,
            body_at(old(cur)@, trailer).error == body_at(cur@, trailer).error,
        decreases cur@.bytes.len() - cur@.pos,
    {
        let ghost from = cur@;
        let ghost block = block_at(from, trailer);
        proof {
            lemma_block_moves(from, trailer);
        }
        let r: Result<(), ParseError> = parse_symbol_data(cur, cscope);
        proof {
            assert(before.symbols + (added + block.symbols) =~= (before.symbols + added)
                + block.symbols);
            if !(block.error is Some || block.pos + END_MARK_LEN == trailer) {
                assert(added + (block.symbols + body_at(cur@, trailer).symbols) =~= (added
                    + block.symbols) + body_at(cur@, trailer).symbols);
            }
            added = added + block.symbols;
        }
        match r {
            Ok(_) => {},
            Err(e) => {
                return Err(e);
            },
        }
        let pos: u64 = cur.position();
        if cscope.trailer_offset >= END_MARK_LEN && pos == cscope.trailer_offset - END_MARK_LEN {
            return Ok(());
        }
    }
    Ok(())
}

} // verus!
