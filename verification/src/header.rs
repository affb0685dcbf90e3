//! The header: the first line of a database.

use crate::cscope::view_of;
use crate::cscope::Cscope;
use crate::cscope::CscopeView;
use crate::cursor::Cursor;
use crate::cursor::Stream;
use crate::error::FormatError;
use crate::error::ParseError;
use crate::text::end_of;
use crate::text::lemma_words_are_text;
use crate::text::parse_number;
use crate::text::parse_unsigned;
use crate::text::split;
use crate::text::split_words;
use crate::text::strip_zeros;
use crate::text::stripped_zeros;
use crate::text::to_text;
use crate::text::trim_end;
use crate::text::trimmed_end;
use crate::text::NEWLINE;
use crate::text::SPACE;
use crate::token::Outcome;
use vstd::prelude::*;
use vstd::utf8::decode_utf8;
use vstd::utf8::valid_utf8;

verus! {

/// The word that a header starts with: `cscope`.
pub open spec fn magic() -> Seq<u8> {
    seq![0x63, 0x73, 0x63, 0x6f, 0x70, 0x65]
}

/// The number that the last word of a header writes: the word without the
/// zeros before the number and the white space after it.
pub open spec fn trailer_offset_of(word: Seq<u8>) -> Option<nat> {
    parse_unsigned(trim_end(strip_zeros(word)), u64::MAX as nat)
}

/// What a header line says. Its words are what single spaces separate: the
/// magic word, the version, the directory, any flags, and the trailer offset.
/// The checks are made in this order, and the first that fails names the
/// error: the line is text; it has four words or more, the first of them the
/// magic word; the version is a number that fits 32 bits; the trailer offset
/// is a number that fits 64 bits, and not less than the length of the line.
pub open spec fn header_of(line: Seq<u8>) -> Result<CscopeView, ParseError> {
    let words = split(line, SPACE);
    if !valid_utf8(line) {
        Err(ParseError::Encoding)
    } else if words.len() < 4 || words[0] != magic() {
        Err(ParseError::Format(FormatError::Header))
    } else if parse_unsigned(words[1], u32::MAX as nat) is None {
        Err(ParseError::Format(FormatError::Version))
    } else if trailer_offset_of(words.last()) is None || trailer_offset_of(words.last())->0
        < line.len() {
        Err(ParseError::Format(FormatError::TrailerOffset))
    } else {
        Ok(
            CscopeView {
                version: parse_unsigned(words[1], u32::MAX as nat)->0 as u32,
                current_dir: decode_utf8(words[2]),
                trailer_offset: trailer_offset_of(words.last())->0 as u64,
                header_raw: line,
                symbols: Seq::empty(),
            },
        )
    }
}

/// The header is the line at `s.pos`, with the `NEWLINE` that ends it.
pub open spec fn header_at(s: Stream) -> Outcome<CscopeView> {
    let end = end_of(s.bytes, s.pos, NEWLINE);
    Outcome { value: header_of(s.bytes.subrange(s.pos, end)), pos: end }
}

fn is_magic(word: &Vec<u8>) -> (r: bool)
    ensures
        r == (word@ == magic()),
{
    let r: bool = word.len() == 6 && word[0] == 0x63 && word[1] == 0x73 && word[2] == 0x63
        && word[3] == 0x6f && word[4] == 0x70 && word[5] == 0x65;
    proof {
        if r {
            assert(word@ =~= magic());
        }
    }
    r
}

/// Reads the header line and returns the database that it describes, with no
/// symbols yet. The cursor passes the line whether it is a header or not.
pub fn parse_header(cur: &mut Cursor) -> (r: Result<Cscope, ParseError>)
    ensures
        final(cur)@.bytes == old(cur)@.bytes,
        final(cur)@.pos == header_at(old(cur)@).pos,
        view_of(r) == header_at(old(cur)@).value,
        r matches Ok(cscope) ==> cscope@.wf() && cscope@.symbols.len() == 0,
{
    let line: Vec<u8> = cur.read_until(NEWLINE);
    if to_text(line.as_slice()).is_err() {
        return Err(ParseError::Encoding);
    }
    let words: Vec<Vec<u8>> = split_words(line.as_slice(), SPACE);
    proof {
        lemma_words_are_text(line@, SPACE);
    }
    if words.len() < 4 || !is_magic(&words[0]) {
        return Err(ParseError::Format(FormatError::Header));
    }
    let version: u32 = match parse_number(words[1].as_slice(), 0xffff_ffff) {
        Some(n) => n as u32,
        None => {
            return Err(ParseError::Format(FormatError::Version));
        },
    };
    let current_dir: String = match to_text(words[2].as_slice()) {
        Ok(text) => text,
        Err(e) => {
            return Err(e);
        },
    };
    let padded: Vec<u8> = stripped_zeros(words[words.len() - 1].as_slice());
    let digits: Vec<u8> = trimmed_end(padded.as_slice());
    let trailer_offset: u64 = match parse_number(digits.as_slice(), u64::MAX) {
        Some(n) => n,
        None => {
            return Err(ParseError::Format(FormatError::TrailerOffset));
        },
    };
    if trailer_offset < line.len() as u64 {
        return Err(ParseError::Format(FormatError::TrailerOffset));
    }
    let cscope = Cscope {
        version,
        current_dir,
        trailer_offset,
        header_raw: line,
        symbols: Vec::new(),
    };
    assert(cscope@.symbols =~= Seq::empty());
    Ok(cscope)
}

} // verus!
