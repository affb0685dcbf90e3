//! The fields of the database, read one at a time.
//!
//! Each reader takes the cursor where a field starts and leaves it where the
//! field ends. What it returns and where it stops depend only on the bytes and
//! on where it started, and a spec function beside each reader says how.

use crate::cursor::Cursor;
use crate::cursor::Stream;
use crate::error::FormatError;
use crate::error::ParseError;
use crate::mark::mark_of;
use crate::mark::FileMark;
use crate::text::chars_of;
use crate::text::chomp;
use crate::text::chomped;
use crate::text::end_of;
use crate::text::from_utf8;
use crate::text::is_digit;
use crate::text::lemma_chomp_keeps_text;
use crate::text::lemma_index_of;
use crate::text::lemma_index_of_same_after;
use crate::text::lemma_one_line_of_text;
use crate::text::lemma_trim_keeps_text;
use crate::text::one_line;
use crate::text::parse_number;
use crate::text::parse_unsigned;
use crate::text::text_of;
use crate::text::to_text;
use crate::text::trim;
use crate::text::trimmed;
use crate::text::NEWLINE;
use crate::text::SPACE;
use crate::text::TAB;
use vstd::prelude::*;
use vstd::utf8::valid_utf8;

verus! {

/// What a reader does from a given place: what it returns, and where it
/// leaves the cursor.
pub struct Outcome<T> {
    pub value: Result<T, ParseError>,
    pub pos: int,
}

/// The byte at `s.pos`, or 0 at the end.
pub open spec fn peek_at(s: Stream) -> u8 {
    match s.next() {
        Some(byte) => byte,
        None => 0,
    }
}

/// A mark is a tab and the byte that names the kind. At the end of the bytes
/// the kind may be missing, and is then unrecognized. Anything but a tab is an
/// error, and is passed over.
pub open spec fn file_mark_at(s: Stream) -> Outcome<FileMark> {
    if peek_at(s) == TAB {
        let kind = s.at(s.pos + 1);
        Outcome {
            value: Ok(
                if kind.pos < s.bytes.len() {
                    mark_of(s.bytes[kind.pos])
                } else {
                    FileMark::Unrecognized
                },
            ),
            pos: kind.past_one(),
        }
    } else {
        Outcome { value: Err(ParseError::Format(FormatError::Tab)), pos: s.past_one() }
    }
}

/// A mark where a tab stands, and nothing where it does not.
pub open spec fn optional_mark_at(s: Stream) -> Outcome<Option<FileMark>> {
    if peek_at(s) == TAB {
        Outcome { value: Ok(Some(file_mark_at(s).value->Ok_0)), pos: file_mark_at(s).pos }
    } else {
        Outcome { value: Ok(None), pos: s.pos }
    }
}

/// The mark of a file stands at `s.pos`: a tab and `@`.
pub open spec fn at_file_mark(s: Stream) -> bool {
    peek_at(s) == TAB && peek_at(s.at(s.pos + 1)) == 0x40
}

/// A line is the bytes up to and including the next `NEWLINE`, or up to the
/// end. Its text is what the bytes before that `NEWLINE` encode.
pub open spec fn line_at(s: Stream) -> Outcome<Seq<char>> {
    let end = end_of(s.bytes, s.pos, NEWLINE);
    Outcome { value: text_of(chomp(s.bytes.subrange(s.pos, end))), pos: end }
}

/// The text of a line is one line: it holds no line break, so that joining
/// its lines into one changes nothing.
pub proof fn lemma_line_is_one_line(s: Stream)
    requires
        s.wf(),
        line_at(s).value is Ok,
    ensures
        one_line(line_at(s).value->Ok_0) == line_at(s).value->Ok_0,
{
    lemma_index_of(s.bytes, s.pos, NEWLINE);
    lemma_one_line_of_text(chomp(s.bytes.subrange(s.pos, line_at(s).pos)));
}

/// A line is read exactly where its bytes are text.
pub proof fn lemma_line_is_text(s: Stream)
    ensures
        line_at(s).value is Ok == valid_utf8(s.bytes.subrange(s.pos, line_at(s).pos)),
{
    lemma_chomp_keeps_text(s.bytes.subrange(s.pos, line_at(s).pos));
}

/// A symbol is the rest of the line, without the white space around it.
pub open spec fn symbol_at(s: Stream) -> Outcome<Seq<char>> {
    let end = end_of(s.bytes, s.pos, NEWLINE);
    Outcome { value: text_of(trim(s.bytes.subrange(s.pos, end))), pos: end }
}

/// A symbol is read exactly where the bytes of its line are text.
pub proof fn lemma_symbol_is_text(s: Stream)
    ensures
        symbol_at(s).value is Ok == valid_utf8(s.bytes.subrange(s.pos, symbol_at(s).pos)),
{
    lemma_trim_keeps_text(s.bytes.subrange(s.pos, symbol_at(s).pos));
}

/// An empty line is one `NEWLINE`. Any other byte is an error, and is passed
/// over; so is the end of the bytes.
pub open spec fn empty_line_at(s: Stream) -> Outcome<()> {
    Outcome {
        value: if peek_at(s) == NEWLINE {
            Ok(())
        } else {
            Err(ParseError::Format(FormatError::EmptyLine))
        },
        pos: s.past_one(),
    }
}

/// A line number is the bytes up to and including the next `SPACE`, or up to
/// the end. Without the white space around them they must write a number that
/// fits 64 bits.
pub open spec fn line_number_at(s: Stream) -> Outcome<u64> {
    let end = end_of(s.bytes, s.pos, SPACE);
    Outcome {
        value: match parse_unsigned(trim(s.bytes.subrange(s.pos, end)), u64::MAX as nat) {
            Some(n) => Ok(n as u64),
            None => Err(ParseError::Format(FormatError::LineNumber)),
        },
        pos: end,
    }
}

/// Where the first empty line at or after `from` starts, `from` being the
/// start of a line; or `bytes.len()` where every line from there on holds
/// something.
pub open spec fn empty_line_from(bytes: Seq<u8>, from: int) -> int
    decreases bytes.len() - from,
    via empty_line_from_decreases
{
    if from < 0 || from >= bytes.len() {
        bytes.len() as int
    } else if bytes[from] == NEWLINE {
        from
    } else {
        empty_line_from(bytes, end_of(bytes, from, NEWLINE))
    }
}

#[via_fn]
proof fn empty_line_from_decreases(bytes: Seq<u8>, from: int) {
    if 0 <= from < bytes.len() {
        lemma_index_of(bytes, from, NEWLINE);
    }
}

/// The lines up to the first empty one are read, and the empty one with them.
/// Their text is what they encode without the white space around them; the
/// line breaks between them stay. Where the bytes end before an empty line,
/// all of them are read and that is an error.
pub open spec fn until_empty_line_at(s: Stream) -> Outcome<Seq<char>> {
    let at = empty_line_from(s.bytes, s.pos);
    if at < s.bytes.len() {
        Outcome { value: text_of(trim(s.bytes.subrange(s.pos, at))), pos: at + 1 }
    } else {
        Outcome { value: Err(ParseError::Format(FormatError::Unterminated)), pos: at }
    }
}

/// Lines that an empty line closes are read exactly where their bytes are
/// text.
pub proof fn lemma_lines_are_text(s: Stream)
    requires
        empty_line_from(s.bytes, s.pos) < s.bytes.len(),
    ensures
        until_empty_line_at(s).value is Ok == valid_utf8(
            s.bytes.subrange(s.pos, empty_line_from(s.bytes, s.pos)),
        ),
{
    lemma_trim_keeps_text(s.bytes.subrange(s.pos, empty_line_from(s.bytes, s.pos)));
}

/// The first empty line at or after the start of a line lies in the bytes or
/// at their end, and not before that start.
pub proof fn lemma_empty_line_from(bytes: Seq<u8>, from: int)
    requires
        0 <= from <= bytes.len(),
    ensures
        from <= empty_line_from(bytes, from) <= bytes.len(),
        empty_line_from(bytes, from) < bytes.len() ==> bytes[empty_line_from(bytes, from)]
            == NEWLINE,
    decreases bytes.len() - from,
{
    if from < bytes.len() && bytes[from] != NEWLINE {
        lemma_index_of(bytes, from, NEWLINE);
        lemma_empty_line_from(bytes, end_of(bytes, from, NEWLINE));
    }
}

/// The texts that were read, or the error in their place.
pub open spec fn texts_of(
    r: Result<Vec<String>, ParseError>,
) -> Result<Seq<Seq<char>>, ParseError> {
    match r {
        Ok(texts) => Ok(texts@.map_values(|text: String| text@)),
        Err(e) => Err(e),
    }
}

/// A source line starts with a digit, and a block with the mark of a file.
pub open spec fn at_boundary(s: Stream) -> bool {
    is_digit(peek_at(s)) || at_file_mark(s)
}

/// Groups of lines, each closed by an empty line, are read up to the first
/// after which a source line or a block starts. The text of each group is
/// that of its lines, without the white space around them. A group that
/// cannot be read is an error, and the bytes may end before a source line or a
/// block starts.
pub open spec fn next_source_line_at(s: Stream) -> Outcome<Seq<Seq<char>>>
    decreases s.bytes.len() - s.pos,
    when s.wf()
    via next_source_line_at_decreases
{
    let group = until_empty_line_at(s);
    match group.value {
        Err(e) => Outcome { value: Err(e), pos: group.pos },
        Ok(text) => if at_boundary(s.at(group.pos)) {
            Outcome { value: Ok(seq![text]), pos: group.pos }
        } else {
            let rest = next_source_line_at(s.at(group.pos));
            Outcome {
                value: match rest.value {
                    Ok(texts) => Ok(seq![text] + texts),
                    Err(e) => Err(e),
                },
                pos: rest.pos,
            }
        },
    }
}

#[via_fn]
proof fn next_source_line_at_decreases(s: Stream) {
    lemma_empty_line_from(s.bytes, s.pos);
}

/// Where the first empty line from `from` on starts depends on the bytes from
/// `from` on alone.
pub proof fn lemma_empty_line_from_same_after(a: Seq<u8>, b: Seq<u8>, from: int)
    requires
        a.len() == b.len(),
        0 <= from <= a.len(),
        forall|i: int| from <= i < a.len() ==> a[i] == b[i],
    ensures
        empty_line_from(b, from) == empty_line_from(a, from),
    decreases a.len() - from,
{
    if from < a.len() && a[from] != NEWLINE {
        lemma_index_of(a, from, NEWLINE);
        lemma_index_of_same_after(a, b, from, NEWLINE);
        lemma_empty_line_from_same_after(a, b, end_of(a, from, NEWLINE));
    }
}

/// Looks at the next byte without passing it. At the end there is none, and
/// the answer is 0.
pub fn peek(cur: &mut Cursor) -> (byte: u8)
    ensures
        final(cur)@ == old(cur)@,
        byte == peek_at(old(cur)@),
{
    let saved: u64 = cur.position();
    let read: Option<u8> = cur.read_byte();
    cur.seek(saved);
    match read {
        Some(byte) => byte,
        None => 0,
    }
}

/// Reads a mark: a tab, then the byte that names the kind.
pub fn parse_file_mark(cur: &mut Cursor) -> (r: Result<FileMark, ParseError>)
    ensures
        final(cur)@.bytes == old(cur)@.bytes,
        final(cur)@.pos == file_mark_at(old(cur)@).pos,
        r == file_mark_at(old(cur)@).value,
{
    proof {
        cur.lemma_wf();
    }
    match cur.read_byte() {
        Some(TAB) => {},
        _ => {
            return Err(ParseError::Format(FormatError::Tab));
        },
    }
    match cur.read_byte() {
        Some(byte) => Ok(FileMark::from(byte)),
        None => Ok(FileMark::Unrecognized),
    }
}

/// Reads a mark where the next byte is a tab, and nothing where it is not.
pub fn parse_optional_mark(cur: &mut Cursor) -> (r: Result<Option<FileMark>, ParseError>)
    ensures
        final(cur)@.bytes == old(cur)@.bytes,
        final(cur)@.pos == optional_mark_at(old(cur)@).pos,
        r == optional_mark_at(old(cur)@).value,
        r is Ok,
{
    if peek(cur) == TAB {
        match parse_file_mark(cur) {
            Ok(mark) => Ok(Some(mark)),
            Err(e) => Err(e),
        }
    } else {
        Ok(None)
    }
}

/// Says whether the mark of a file comes next, and leaves the cursor where it
/// was whatever comes next.
pub fn at_filemark(cur: &mut Cursor) -> (found: bool)
    ensures
        final(cur)@ == old(cur)@,
        found == at_file_mark(old(cur)@),
{
    let saved: u64 = cur.position();
    let found: bool = match parse_optional_mark(cur) {
        Ok(Some(mark)) => mark == FileMark::File,
        _ => false,
    };
    cur.seek(saved);
    found
}

/// Reads the rest of the line and returns its text.
pub fn parse_to_end(cur: &mut Cursor) -> (r: Result<String, ParseError>)
    ensures
        final(cur)@.bytes == old(cur)@.bytes,
        final(cur)@.pos == line_at(old(cur)@).pos,
        chars_of(r) == line_at(old(cur)@).value,
{
    let line: Vec<u8> = cur.read_until(NEWLINE);
    let content: Vec<u8> = chomped(line.as_slice());
    to_text(content.as_slice())
}

/// Reads the rest of the line and returns the symbol that it holds.
pub fn parse_symbol(cur: &mut Cursor) -> (r: Result<String, ParseError>)
    ensures
        final(cur)@.bytes == old(cur)@.bytes,
        final(cur)@.pos == symbol_at(old(cur)@).pos,
        chars_of(r) == symbol_at(old(cur)@).value,
{
    let line: Vec<u8> = cur.read_until(NEWLINE);
    from_utf8(&line)
}

/// Reads the path of a file: the rest of the line.
pub fn parse_file_path(cur: &mut Cursor) -> (r: Result<String, ParseError>)
    ensures
        final(cur)@.bytes == old(cur)@.bytes,
        final(cur)@.pos == line_at(old(cur)@).pos,
        chars_of(r) == line_at(old(cur)@).value,
{
    parse_to_end(cur)
}

/// Reads a line that must be empty.
pub fn parse_empty_line(cur: &mut Cursor) -> (r: Result<(), ParseError>)
    ensures
        final(cur)@.bytes == old(cur)@.bytes,
        final(cur)@.pos == empty_line_at(old(cur)@).pos,
        r == empty_line_at(old(cur)@).value,
{
    proof {
        cur.lemma_wf();
    }
    match cur.read_byte() {
        Some(NEWLINE) => Ok(()),
        _ => Err(ParseError::Format(FormatError::EmptyLine)),
    }
}

/// Reads a line number and the space after it.
pub fn parse_line_number_and_blank(cur: &mut Cursor) -> (r: Result<u64, ParseError>)
    ensures
        final(cur)@.bytes == old(cur)@.bytes,
        final(cur)@.pos == line_number_at(old(cur)@).pos,
        r == line_number_at(old(cur)@).value,
{
    let field: Vec<u8> = cur.read_until(SPACE);
    let digits: Vec<u8> = trimmed(field.as_slice());
    match parse_number(digits.as_slice(), u64::MAX) {
        Some(n) => Ok(n),
        None => Err(ParseError::Format(FormatError::LineNumber)),
    }
}

/// Reads lines up to and including the first empty one, and returns the text
/// of the lines before it, without the white space around them.
pub fn parse_until_empty_line(cur: &mut Cursor) -> (r: Result<String, ParseError>)
    ensures
        final(cur)@.bytes == old(cur)@.bytes,
        final(cur)@.pos == until_empty_line_at(old(cur)@).pos,
        chars_of(r) == until_empty_line_at(old(cur)@).value,
{
    let mut buf: Vec<u8> = Vec::new();
    let ghost bytes = cur@.bytes;
    let ghost start = cur@.pos;
    proof {
        cur.lemma_wf();
        assert(bytes.subrange(start, start) =~= Seq::<u8>::empty());
    }
    loop
        invariant
            bytes == old(cur)@.bytes,
            start == old(cur)@.pos,
            cur@.bytes == bytes,
            0 <= start <= cur@.pos <= bytes.len(),
            buf@ == bytes.subrange(start, cur@.pos),
            empty_line_from(bytes, cur@.pos) == empty_line_from(bytes, start),
        decreases bytes.len() - cur@.pos,
    {
        let ghost from = cur@.pos;
        let mut line: Vec<u8> = cur.read_until(NEWLINE);
        proof {
            lemma_index_of(bytes, from, NEWLINE);
        }
        if line.len() == 0 {
            return Err(ParseError::Format(FormatError::Unterminated));
        }
        assert(line@[0] == bytes[from]);
        if line.len() == 1 && line[0] == NEWLINE {
            return from_utf8(&buf);
        }
        buf.append(&mut line);
        assert(buf@ =~= bytes.subrange(start, cur@.pos));
    }
}

/// Reads groups of lines, each closed by an empty line, until a source line
/// or a block comes next, and returns the text of each group.
pub fn parse_until_next_source_line(cur: &mut Cursor) -> (r: Result<Vec<String>, ParseError>)
    ensures
        final(cur)@.bytes == old(cur)@.bytes,
        final(cur)@.pos == next_source_line_at(old(cur)@).pos,
        texts_of(r) == next_source_line_at(old(cur)@).value,
{
    let mut lines: Vec<String> = Vec::new();
    let ghost texts = Seq::<Seq<char>>::empty();
    proof {
        cur.lemma_wf();
    }
    loop
        invariant
            cur@.bytes == old(cur)@.bytes,
            cur@.wf(),
            old(cur)@.wf(),
            texts == lines@.map_values(|text: String| text@),
            next_source_line_at(old(cur)@).pos == next_source_line_at(cur@).pos,
            next_source_line_at(old(cur)@).value == match next_source_line_at(cur@).value {
                Ok(rest) => Ok::<Seq<Seq<char>>, ParseError>(texts + rest),
                Err(e) => Err(e),
            },
        decreases cur@.bytes.len() - cur@.pos,
    {
        let ghost from = cur@;
        let ghost read = texts;
        proof {
            lemma_empty_line_from(from.bytes, from.pos);
        }
        match parse_until_empty_line(cur) {
            Ok(line) => {
                proof {
                    let read = lines@.push(line);
                    assert(read.map_values(|text: String| text@) =~= texts.push(line@));
                    texts = texts.push(line@);
                }
                lines.push(line);
            },
            Err(e) => {
                return Err(e);
            },
        }
        proof {
            let text = until_empty_line_at(from).value->Ok_0;
            if at_boundary(cur@) {
                assert(read + seq![text] =~= texts);
            } else {
                let rest = next_source_line_at(cur@).value;
                if rest is Ok {
                    assert(read + (seq![text] + rest->Ok_0) =~= texts + rest->Ok_0);
                }
            }
        }
        let next: u8 = peek(cur);
        if 0x30 <= next && next <= 0x39 {
            return Ok(lines);
        }
        if at_filemark(cur) {
            return Ok(lines);
        }
    }
}

} // verus!
