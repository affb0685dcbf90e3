//! Byte strings: searching, splitting, trimming and reading numbers.
//!
//! The database is parsed as bytes, and a field becomes text only once it has
//! been cut out. Nearly everything here is stated over `Seq<u8>`; decoding
//! leads from there to `Seq<char>`, and `one_line` is stated over that.

use crate::error::ParseError;
use vstd::prelude::*;
use vstd::utf8::char_is_scalar;
use vstd::utf8::char_u32_cast;
use vstd::utf8::decode_utf8;
use vstd::utf8::decode_utf8_encode_utf8;
use vstd::utf8::encode_scalar;
use vstd::utf8::encode_utf8;
use vstd::utf8::encode_utf8_decode_utf8;
use vstd::utf8::encode_utf8_valid_utf8;
use vstd::utf8::is_char_boundary_iff_not_is_continuation_byte;
use vstd::utf8::pop_first_scalar;
use vstd::utf8::valid_first_scalar;
use vstd::utf8::valid_utf8;
use vstd::utf8::valid_utf8_concat;
use vstd::utf8::valid_utf8_split;

verus! {

/// The byte that introduces a mark.
pub const TAB: u8 = 0x09;

/// The byte that ends a line.
pub const NEWLINE: u8 = 0x0a;

/// The byte that separates the words of the header and ends a line number.
pub const SPACE: u8 = 0x20;

/// The index of the first `delim` in `s` at or after `from`, or `s.len()` where
/// there is none.
pub open spec fn index_of(s: Seq<u8>, from: int, delim: u8) -> int
    decreases s.len() - from,
{
    if from < 0 || from >= s.len() {
        s.len() as int
    } else if s[from] == delim {
        from
    } else {
        index_of(s, from + 1, delim)
    }
}

/// Where a read from `from` up to and including the next `delim` ends: just
/// after that `delim`, or at the end of `s` where there is none.
pub open spec fn end_of(s: Seq<u8>, from: int, delim: u8) -> int {
    let at = index_of(s, from, delim);
    if at < s.len() {
        at + 1
    } else {
        s.len() as int
    }
}

/// `index_of` is the least index at or after `from` that holds `delim`.
pub proof fn lemma_index_of(s: Seq<u8>, from: int, delim: u8)
    requires
        0 <= from <= s.len(),
    ensures
        from <= index_of(s, from, delim) <= s.len(),
        index_of(s, from, delim) < s.len() ==> s[index_of(s, from, delim)] == delim,
        forall|k: int| from <= k < index_of(s, from, delim) ==> s[k] != delim,
    decreases s.len() - from,
{
    if from < s.len() && s[from] != delim {
        lemma_index_of(s, from + 1, delim);
    }
}

/// Looking for `delim` from anywhere before its first occurrence finds the
/// same one.
pub proof fn lemma_index_of_from_within(s: Seq<u8>, from: int, mid: int, delim: u8)
    requires
        0 <= from <= mid <= index_of(s, from, delim),
    ensures
        index_of(s, mid, delim) == index_of(s, from, delim),
    decreases mid - from,
{
    lemma_index_of(s, from, delim);
    if from < mid {
        lemma_index_of_from_within(s, from + 1, mid, delim);
    }
}

/// A `delim` that is found before `upto` is found in any bytes that are the
/// same before `upto`.
pub proof fn lemma_index_of_same_before(a: Seq<u8>, b: Seq<u8>, from: int, delim: u8, upto: int)
    requires
        a.len() == b.len(),
        0 <= from,
        forall|i: int| 0 <= i < upto && i < a.len() ==> a[i] == b[i],
        index_of(a, from, delim) < upto,
    ensures
        index_of(b, from, delim) == index_of(a, from, delim),
    decreases a.len() - from,
{
    if from < a.len() && a[from] != delim {
        lemma_index_of(a, from + 1, delim);
        lemma_index_of_same_before(a, b, from + 1, delim, upto);
    }
}

/// What is found from `from` on depends on the bytes from `from` on alone.
pub proof fn lemma_index_of_same_after(a: Seq<u8>, b: Seq<u8>, from: int, delim: u8)
    requires
        a.len() == b.len(),
        0 <= from,
        forall|i: int| from <= i < a.len() ==> a[i] == b[i],
    ensures
        index_of(b, from, delim) == index_of(a, from, delim),
    decreases a.len() - from,
{
    if from < a.len() && a[from] != delim {
        lemma_index_of_same_after(a, b, from + 1, delim);
    }
}

/// Finds the first `delim` in `s` at or after `from`.
pub fn find(s: &[u8], from: usize, delim: u8) -> (at: usize)
    requires
        from <= s@.len(),
    ensures
        at == index_of(s@, from as int, delim),
        from <= at <= s@.len(),
{
    let mut i: usize = from;
    proof {
        lemma_index_of(s@, from as int, delim);
    }
    while i < s.len() && s[i] != delim
        invariant
            from <= i <= s@.len(),
            i <= index_of(s@, from as int, delim),
        decreases s@.len() - i,
    {
        proof {
            lemma_index_of(s@, from as int, delim);
        }
        i += 1;
    }
    proof {
        lemma_index_of_from_within(s@, from as int, i as int, delim);
    }
    i
}

/// Copies the bytes of `s` from `from` up to `to`.
pub fn copy_range(s: &[u8], from: usize, to: usize) -> (out: Vec<u8>)
    requires
        from <= to <= s@.len(),
    ensures
        out@ == s@.subrange(from as int, to as int),
{
    let mut out: Vec<u8> = Vec::new();
    let mut i: usize = from;
    while i < to
        invariant
            from <= i <= to <= s@.len(),
            out@ == s@.subrange(from as int, i as int),
        decreases to - i,
    {
        out.push(s[i]);
        i += 1;
    }
    out
}

/// The words of `s`: the stretches between one `delim` and the next. There
/// is one word more than there are `delim`s, so a word may be empty.
pub open spec fn split(s: Seq<u8>, delim: u8) -> Seq<Seq<u8>>
    decreases s.len(),
{
    if s.len() == 0 {
        seq![Seq::<u8>::empty()]
    } else {
        let before = split(s.drop_last(), delim);
        if s.last() == delim {
            before.push(Seq::<u8>::empty())
        } else {
            before.drop_last().push(before.last().push(s.last()))
        }
    }
}

/// The contents of each vector.
pub open spec fn views(words: Seq<Vec<u8>>) -> Seq<Seq<u8>> {
    Seq::new(words.len(), |i: int| words[i]@)
}

/// The words with a `delim` between each and the next.
pub open spec fn join(words: Seq<Seq<u8>>, delim: u8) -> Seq<u8>
    decreases words.len(),
{
    if words.len() == 0 {
        Seq::empty()
    } else if words.len() == 1 {
        words[0]
    } else {
        join(words.drop_last(), delim).push(delim) + words.last()
    }
}

/// No byte of `s` is `delim`.
pub open spec fn free_of(s: Seq<u8>, delim: u8) -> bool {
    forall|i: int| 0 <= i < s.len() ==> s[i] != delim
}

/// Splitting loses nothing: there is at least one word, no word holds a
/// `delim`, and the words joined again are `s`.
pub proof fn lemma_split_joins(s: Seq<u8>, delim: u8)
    ensures
        split(s, delim).len() >= 1,
        forall|k: int|
            0 <= k < split(s, delim).len() ==> free_of(#[trigger] split(s, delim)[k], delim),
        join(split(s, delim), delim) == s,
    decreases s.len(),
{
    if s.len() > 0 {
        let before = split(s.drop_last(), delim);
        lemma_split_joins(s.drop_last(), delim);
        let words = split(s, delim);
        if s.last() == delim {
            assert(words.drop_last() =~= before);
        } else {
            if before.len() > 1 {
                assert(words.drop_last() =~= before.drop_last());
            }
            assert(join(before, delim).push(s.last()) =~= s);
        }
    }
}

/// A stretch without a `delim` is a single word.
pub proof fn lemma_split_one_word(s: Seq<u8>, delim: u8)
    requires
        free_of(s, delim),
    ensures
        split(s, delim) == seq![s],
    decreases s.len(),
{
    if s.len() == 0 {
        assert(s =~= Seq::<u8>::empty());
    } else {
        lemma_split_one_word(s.drop_last(), delim);
        assert(s.drop_last().push(s.last()) =~= s);
    }
}

/// What follows the last `delim` is the last word, and the words before it
/// are those of what stands before that `delim`.
pub proof fn lemma_split_last_word(before: Seq<u8>, word: Seq<u8>, delim: u8)
    requires
        free_of(word, delim),
    ensures
        split(before.push(delim) + word, delim) == split(before, delim).push(word),
    decreases word.len(),
{
    let s = before.push(delim) + word;
    if word.len() == 0 {
        assert(s.drop_last() =~= before);
        assert(word =~= Seq::<u8>::empty());
    } else {
        lemma_split_last_word(before, word.drop_last(), delim);
        assert(s.drop_last() =~= before.push(delim) + word.drop_last());
        assert(word.drop_last().push(word.last()) =~= word);
    }
}

/// The place of the last `delim` in `s`, where `s` holds one.
proof fn last_delim(s: Seq<u8>, delim: u8) -> (at: int)
    requires
        !free_of(s, delim),
    ensures
        0 <= at < s.len(),
        s[at] == delim,
        free_of(s.skip(at + 1), delim),
    decreases s.len(),
{
    if s.last() == delim {
        s.len() - 1
    } else {
        let i = choose|i: int| 0 <= i < s.len() && s[i] == delim;
        assert(s.drop_last()[i] == delim);
        let at = last_delim(s.drop_last(), delim);
        let tail = s.skip(at + 1);
        let shorter = s.drop_last().skip(at + 1);
        assert forall|k: int| 0 <= k < tail.len() implies #[trigger] tail[k] != delim by {
            if k < shorter.len() {
                assert(tail[k] == shorter[k]);
            }
        }
        at
    }
}

/// On either side of a byte below 0x80, text is text.
pub proof fn lemma_text_around_ascii(s: Seq<u8>, at: int)
    requires
        valid_utf8(s),
        0 <= at < s.len(),
        s[at] < 0x80,
    ensures
        valid_utf8(s.take(at)),
        valid_utf8(s.skip(at + 1)),
{
    is_char_boundary_iff_not_is_continuation_byte(s, at);
    valid_utf8_split(s, at);
    let rest = s.subrange(at, s.len() as int);
    assert(pop_first_scalar(rest) =~= s.skip(at + 1));
}

/// The words of a text, split at a byte below 0x80, are texts.
pub proof fn lemma_words_are_text(s: Seq<u8>, delim: u8)
    requires
        valid_utf8(s),
        delim < 0x80,
    ensures
        forall|k: int| 0 <= k < split(s, delim).len() ==> valid_utf8(#[trigger] split(s, delim)[k]),
    decreases s.len(),
{
    if free_of(s, delim) {
        lemma_split_one_word(s, delim);
    } else {
        let at = last_delim(s, delim);
        let before = s.take(at);
        let word = s.skip(at + 1);
        lemma_text_around_ascii(s, at);
        lemma_split_last_word(before, word, delim);
        lemma_words_are_text(before, delim);
        assert(before.push(delim) + word =~= s);
    }
}

/// Splits `s` at each `delim`.
pub fn split_words(s: &[u8], delim: u8) -> (words: Vec<Vec<u8>>)
    ensures
        views(words@) == split(s@, delim),
{
    let mut words: Vec<Vec<u8>> = Vec::new();
    let mut word: Vec<u8> = Vec::new();
    let mut i: usize = 0;
    while i < s.len()
        invariant
            i <= s@.len(),
            views(words@).push(word@) == split(s@.take(i as int), delim),
        decreases s@.len() - i,
    {
        let ghost before = views(words@).push(word@);
        proof {
            assert(s@.take(i + 1).drop_last() =~= s@.take(i as int));
        }
        if s[i] == delim {
            words.push(word);
            word = Vec::new();
        } else {
            word.push(s[i]);
            assert(views(words@).push(word@) =~= before.drop_last().push(
                before.last().push(s@[i as int]),
            ));
        }
        i += 1;
    }
    assert(s@.take(i as int) =~= s@);
    words.push(word);
    words
}

/// A white-space character that takes one byte: U+0009 to U+000D, or a space.
pub open spec fn is_space_1(a: u8) -> bool {
    (0x09 <= a && a <= 0x0d) || a == 0x20
}

/// A white-space character that takes two bytes: U+0085 or U+00A0.
pub open spec fn is_space_2(a: u8, b: u8) -> bool {
    a == 0xc2 && (b == 0x85 || b == 0xa0)
}

/// A white-space character that takes three bytes: U+1680, U+2000 to U+200A,
/// U+2028, U+2029, U+202F, U+205F or U+3000.
pub open spec fn is_space_3(a: u8, b: u8, c: u8) -> bool {
    ||| (a == 0xe1 && b == 0x9a && c == 0x80)
    ||| (a == 0xe2 && b == 0x80 && ((0x80 <= c && c <= 0x8a) || c == 0xa8 || c == 0xa9 || c
        == 0xaf))
    ||| (a == 0xe2 && b == 0x81 && c == 0x9f)
    ||| (a == 0xe3 && b == 0x80 && c == 0x80)
}

/// The number of bytes that the white-space character at the start of `s`
/// takes, or 0 where `s` starts with none. White space is what Unicode gives
/// the property White_Space, in UTF-8.
pub open spec fn space_at_start(s: Seq<u8>) -> int {
    if s.len() >= 1 && is_space_1(s[0]) {
        1
    } else if s.len() >= 2 && is_space_2(s[0], s[1]) {
        2
    } else if s.len() >= 3 && is_space_3(s[0], s[1], s[2]) {
        3
    } else {
        0
    }
}

/// The number of bytes that the white-space character at the end of `s` takes,
/// or 0 where `s` ends with none.
pub open spec fn space_at_end(s: Seq<u8>) -> int {
    let n = s.len() as int;
    if n >= 1 && is_space_1(s[n - 1]) {
        1
    } else if n >= 2 && is_space_2(s[n - 2], s[n - 1]) {
        2
    } else if n >= 3 && is_space_3(s[n - 3], s[n - 2], s[n - 1]) {
        3
    } else {
        0
    }
}

/// `s` without the white space at its start.
pub open spec fn trim_start(s: Seq<u8>) -> Seq<u8>
    decreases s.len(),
{
    if space_at_start(s) > 0 {
        trim_start(s.skip(space_at_start(s)))
    } else {
        s
    }
}

/// `s` without the white space at its end.
pub open spec fn trim_end(s: Seq<u8>) -> Seq<u8>
    decreases s.len(),
{
    if space_at_end(s) > 0 {
        trim_end(s.take(s.len() - space_at_end(s)))
    } else {
        s
    }
}

/// `s` without the white space at either end.
pub open spec fn trim(s: Seq<u8>) -> Seq<u8> {
    trim_end(trim_start(s))
}

/// A white-space character is a character: the bytes that `space_at_start`
/// counts are the first character of `s`.
pub proof fn lemma_space_is_character(s: Seq<u8>)
    requires
        space_at_start(s) > 0,
    ensures
        valid_first_scalar(s),
        pop_first_scalar(s) == s.skip(space_at_start(s)),
{
    let a = s[0];
    if is_space_1(a) {
        assert(a & 0x7f <= 0x7f) by (bit_vector);
    } else if s.len() >= 2 && is_space_2(a, s[1]) {
        let b = s[1];
        assert(a == 0xc2 && (b == 0x85 || b == 0xa0) ==> 0x80 <= (((a & 0x1f) as u32) << 6) | ((b
            & 0x3f) as u32) <= 0x7ff) by (bit_vector);
    } else {
        let b = s[1];
        let c = s[2];
        assert(0xe1 <= a <= 0xe3 ==> 0x1000 <= (((a & 0x0f) as u32) << 12) | (((b & 0x3f) as u32)
            << 6) | ((c & 0x3f) as u32) <= 0x3fff) by (bit_vector);
    }
}

/// Text stays text without the white space at its start, and what is no text
/// stays none.
pub proof fn lemma_trim_start_keeps_text(s: Seq<u8>)
    ensures
        valid_utf8(trim_start(s)) == valid_utf8(s),
    decreases s.len(),
{
    if space_at_start(s) > 0 {
        lemma_space_is_character(s);
        lemma_trim_start_keeps_text(s.skip(space_at_start(s)));
    }
}

/// Text stays text without the white space at its end, and what is no text
/// stays none.
pub proof fn lemma_trim_end_keeps_text(s: Seq<u8>)
    ensures
        valid_utf8(trim_end(s)) == valid_utf8(s),
    decreases s.len(),
{
    let width = space_at_end(s);
    if width > 0 {
        let kept = s.take(s.len() - width);
        let space = s.skip(s.len() - width);
        lemma_space_is_character(space);
        assert(valid_utf8(space)) by {
            reveal_with_fuel(valid_utf8, 2);
        }
        assert(kept + space =~= s);
        if valid_utf8(kept) {
            valid_utf8_concat(kept, space);
        }
        if valid_utf8(s) {
            is_char_boundary_iff_not_is_continuation_byte(s, s.len() - width);
            valid_utf8_split(s, s.len() - width);
        }
        lemma_trim_end_keeps_text(kept);
    }
}

/// Text stays text without the white space around it, and what is no text
/// stays none.
pub proof fn lemma_trim_keeps_text(s: Seq<u8>)
    ensures
        valid_utf8(trim(s)) == valid_utf8(s),
{
    lemma_trim_start_keeps_text(s);
    lemma_trim_end_keeps_text(trim_start(s));
}

fn is_space_1_byte(a: u8) -> (r: bool)
    ensures
        r == is_space_1(a),
{
    (0x09 <= a && a <= 0x0d) || a == 0x20
}

fn is_space_2_bytes(a: u8, b: u8) -> (r: bool)
    ensures
        r == is_space_2(a, b),
{
    a == 0xc2 && (b == 0x85 || b == 0xa0)
}

fn is_space_3_bytes(a: u8, b: u8, c: u8) -> (r: bool)
    ensures
        r == is_space_3(a, b, c),
{
    (a == 0xe1 && b == 0x9a && c == 0x80) || (a == 0xe2 && b == 0x80 && ((0x80 <= c && c <= 0x8a)
        || c == 0xa8 || c == 0xa9 || c == 0xaf)) || (a == 0xe2 && b == 0x81 && c == 0x9f) || (a
        == 0xe3 && b == 0x80 && c == 0x80)
}

/// The first index at or after `from` at which `s[from..to]` holds something
/// other than white space.
fn skip_spaces(s: &[u8], from: usize, to: usize) -> (at: usize)
    requires
        from <= to <= s@.len(),
    ensures
        from <= at <= to,
        s@.subrange(at as int, to as int) == trim_start(s@.subrange(from as int, to as int)),
{
    let mut i: usize = from;
    loop
        invariant
            from <= i <= to <= s@.len(),
            trim_start(s@.subrange(i as int, to as int)) == trim_start(
                s@.subrange(from as int, to as int),
            ),
        decreases to - i,
    {
        let ghost rest = s@.subrange(i as int, to as int);
        let width: usize = if to - i >= 1 && is_space_1_byte(s[i]) {
            1
        } else if to - i >= 2 && is_space_2_bytes(s[i], s[i + 1]) {
            2
        } else if to - i >= 3 && is_space_3_bytes(s[i], s[i + 1], s[i + 2]) {
            3
        } else {
            0
        };
        if width == 0 {
            return i;
        }
        assert(rest.skip(width as int) =~= s@.subrange(i + width, to as int));
        i += width;
    }
}

/// The last index at or before `to` up to which `s[from..to]` ends with
/// something other than white space.
fn drop_spaces(s: &[u8], from: usize, to: usize) -> (at: usize)
    requires
        from <= to <= s@.len(),
    ensures
        from <= at <= to,
        s@.subrange(from as int, at as int) == trim_end(s@.subrange(from as int, to as int)),
{
    let mut j: usize = to;
    loop
        invariant
            from <= j <= to <= s@.len(),
            trim_end(s@.subrange(from as int, j as int)) == trim_end(
                s@.subrange(from as int, to as int),
            ),
        decreases j - from,
    {
        let ghost rest = s@.subrange(from as int, j as int);
        let width: usize = if j - from >= 1 && is_space_1_byte(s[j - 1]) {
            1
        } else if j - from >= 2 && is_space_2_bytes(s[j - 2], s[j - 1]) {
            2
        } else if j - from >= 3 && is_space_3_bytes(s[j - 3], s[j - 2], s[j - 1]) {
            3
        } else {
            0
        };
        if width == 0 {
            return j;
        }
        assert(rest.take(rest.len() - width) =~= s@.subrange(from as int, j - width));
        j -= width;
    }
}

/// Copies `s` without the white space at its end.
pub fn trimmed_end(s: &[u8]) -> (out: Vec<u8>)
    ensures
        out@ == trim_end(s@),
{
    let to: usize = drop_spaces(s, 0, s.len());
    assert(s@.subrange(0, s@.len() as int) =~= s@);
    copy_range(s, 0, to)
}

/// Copies `s` without the white space at either end.
pub fn trimmed(s: &[u8]) -> (out: Vec<u8>)
    ensures
        out@ == trim(s@),
{
    let from: usize = skip_spaces(s, 0, s.len());
    let to: usize = drop_spaces(s, from, s.len());
    assert(s@.subrange(0, s@.len() as int) =~= s@);
    copy_range(s, from, to)
}

/// `s` without the `NEWLINE` that ends it, if one does.
pub open spec fn chomp(s: Seq<u8>) -> Seq<u8> {
    if s.len() > 0 && s.last() == NEWLINE {
        s.drop_last()
    } else {
        s
    }
}

/// Text stays text without the `NEWLINE` that ends it, and what is no text
/// stays none.
pub proof fn lemma_chomp_keeps_text(s: Seq<u8>)
    ensures
        valid_utf8(chomp(s)) == valid_utf8(s),
{
    if s.len() > 0 && s.last() == NEWLINE {
        let end = seq![NEWLINE];
        assert(s.drop_last() + end =~= s);
        assert(valid_utf8(end)) by {
            reveal_with_fuel(valid_utf8, 2);
            assert(NEWLINE & 0x7f <= 0x7f) by (bit_vector);
        }
        if valid_utf8(s.drop_last()) {
            valid_utf8_concat(s.drop_last(), end);
        }
        if valid_utf8(s) {
            lemma_text_around_ascii(s, s.len() - 1);
        }
    }
}

/// Copies `s` without the `NEWLINE` that ends it, if one does.
pub fn chomped(s: &[u8]) -> (out: Vec<u8>)
    ensures
        out@ == chomp(s@),
{
    let n: usize = s.len();
    if n > 0 && s[n - 1] == NEWLINE {
        copy_range(s, 0, n - 1)
    } else {
        copy_range(s, 0, n)
    }
}

/// `s` without any `NEWLINE`: its lines joined into one.
pub open spec fn fold(s: Seq<u8>) -> Seq<u8> {
    s.filter(|b: u8| b != NEWLINE)
}

/// Copies `s` without any `NEWLINE`.
pub fn folded(s: &[u8]) -> (out: Vec<u8>)
    ensures
        out@ == fold(s@),
{
    let mut out: Vec<u8> = Vec::new();
    let mut i: usize = 0;
    proof {
        reveal(Seq::filter);
    }
    while i < s.len()
        invariant
            i <= s@.len(),
            out@ == fold(s@.take(i as int)),
        decreases s@.len() - i,
    {
        proof {
            reveal(Seq::filter);
            assert(s@.take(i + 1).drop_last() =~= s@.take(i as int));
        }
        if s[i] != NEWLINE {
            out.push(s[i]);
        }
        i += 1;
    }
    assert(s@.take(i as int) =~= s@);
    out
}

/// What holds no `NEWLINE` is one line already.
pub proof fn lemma_fold_of_one_line(s: Seq<u8>)
    requires
        free_of(s, NEWLINE),
    ensures
        fold(s) == s,
    decreases s.len(),
{
    reveal(Seq::filter);
    if s.len() > 0 {
        lemma_fold_of_one_line(s.drop_last());
    }
}

/// `s` without the `0`s at its start.
pub open spec fn strip_zeros(s: Seq<u8>) -> Seq<u8>
    decreases s.len(),
{
    if s.len() > 0 && s[0] == 0x30 {
        strip_zeros(s.skip(1))
    } else {
        s
    }
}

/// Copies `s` without the `0`s at its start.
pub fn stripped_zeros(s: &[u8]) -> (out: Vec<u8>)
    ensures
        out@ == strip_zeros(s@),
{
    let mut i: usize = 0;
    assert(s@.skip(0) =~= s@);
    while i < s.len() && s[i] == 0x30
        invariant
            i <= s@.len(),
            strip_zeros(s@.skip(i as int)) == strip_zeros(s@),
        decreases s@.len() - i,
    {
        assert(s@.skip(i as int).skip(1) =~= s@.skip(i + 1));
        i += 1;
    }
    copy_range(s, i, s.len())
}

/// A decimal digit.
pub open spec fn is_digit(b: u8) -> bool {
    0x30 <= b && b <= 0x39
}

/// Every byte of `s` is a decimal digit.
pub open spec fn all_digits(s: Seq<u8>) -> bool {
    forall|i: int| 0 <= i < s.len() ==> is_digit(#[trigger] s[i])
}

/// The number that the digits `s` write in base ten.
pub open spec fn decimal_value(s: Seq<u8>) -> nat
    decreases s.len(),
{
    if s.len() == 0 {
        0
    } else {
        decimal_value(s.drop_last()) * 10 + (s.last() - 0x30) as nat
    }
}

/// `s` without the `+` that may stand before its digits.
pub open spec fn unsigned(s: Seq<u8>) -> Seq<u8> {
    if s.len() > 0 && s[0] == 0x2b {
        s.skip(1)
    } else {
        s
    }
}

/// The number that `s` writes, where it is at most `max`: `s` is an optional
/// `+` and then one digit or more, and nothing else.
pub open spec fn parse_unsigned(s: Seq<u8>, max: nat) -> Option<nat> {
    let digits = unsigned(s);
    if digits.len() > 0 && all_digits(digits) && decimal_value(digits) <= max {
        Some(decimal_value(digits))
    } else {
        None
    }
}

/// More digits never write a smaller number.
pub proof fn lemma_decimal_value_grows(s: Seq<u8>, n: int)
    requires
        all_digits(s),
        0 <= n <= s.len(),
    ensures
        decimal_value(s.take(n)) <= decimal_value(s),
    decreases s.len() - n,
{
    if n < s.len() {
        lemma_decimal_value_grows(s, n + 1);
        assert(s.take(n + 1).drop_last() =~= s.take(n));
    } else {
        assert(s.take(n) =~= s);
    }
}

/// Reads the number that `s` writes, where it is at most `max`.
pub fn parse_number(s: &[u8], max: u64) -> (r: Option<u64>)
    ensures
        r == (match parse_unsigned(s@, max as nat) {
            Some(n) => Some(n as u64),
            None => None::<u64>,
        }),
{
    let start: usize = if s.len() > 0 && s[0] == 0x2b {
        1
    } else {
        0
    };
    let ghost digits = unsigned(s@);
    if start == s.len() {
        return None;
    }
    let mut value: u64 = 0;
    let mut i: usize = start;
    while i < s.len()
        invariant
            start <= i <= s@.len(),
            digits == unsigned(s@),
            digits == s@.subrange(start as int, s@.len() as int),
            all_digits(digits.take(i - start)),
            value == decimal_value(digits.take(i - start)),
            value <= max,
        decreases s@.len() - i,
    {
        let b: u8 = s[i];
        if b < 0x30 || b > 0x39 {
            assert(!is_digit(digits[i - start]));
            return None;
        }
        let d: u64 = (b - 0x30) as u64;
        proof {
            assert(digits.take(i - start + 1).drop_last() =~= digits.take(i - start));
            assert(all_digits(digits.take(i - start + 1))) by {
                assert forall|k: int| 0 <= k < i - start + 1 implies is_digit(
                    #[trigger] digits.take(i - start + 1)[k],
                ) by {
                    if k < i - start {
                        assert(is_digit(digits.take(i - start)[k]));
                    }
                }
            }
            if all_digits(digits) {
                lemma_decimal_value_grows(digits, i - start + 1);
            }
        }
        if d > max || value > (max - d) / 10 {
            return None;
        }
        value = value * 10 + d;
        i += 1;
    }
    assert(digits.take(i - start) =~= digits);
    Some(value)
}

/// The text that `bytes` encode in UTF-8, or the error where they encode none.
pub open spec fn text_of(bytes: Seq<u8>) -> Result<Seq<char>, ParseError> {
    if valid_utf8(bytes) {
        Ok(decode_utf8(bytes))
    } else {
        Err(ParseError::Encoding)
    }
}

/// The characters of a string that was read, or the error in its place.
pub open spec fn chars_of(r: Result<String, ParseError>) -> Result<Seq<char>, ParseError> {
    match r {
        Ok(text) => Ok(text@),
        Err(e) => Err(e),
    }
}

/// Calls `std::str::from_utf8` and copies the `&str` that it returns into a
/// `String`. Nothing here is proved: the contract says of the standard
/// library that the call succeeds exactly where `bytes` are valid UTF-8, and
/// that the string then holds the characters that `bytes` encode.
#[verifier::external_body]
fn decode(bytes: &[u8]) -> (text: Option<String>)
    ensures
        text is Some <==> valid_utf8(bytes@),
        text matches Some(t) ==> t@ == decode_utf8(bytes@),
{
    match std::str::from_utf8(bytes) {
        Ok(t) => Some(t.to_string()),
        Err(_) => None,
    }
}

/// Decodes `buf` as UTF-8, as it stands. Bytes that are not valid UTF-8 are
/// an error: no placeholder stands in for them.
pub fn to_text(buf: &[u8]) -> (r: Result<String, ParseError>)
    ensures
        chars_of(r) == text_of(buf@),
{
    match decode(buf) {
        Some(text) => Ok(text),
        None => Err(ParseError::Encoding),
    }
}

/// Decodes `buf` as UTF-8, without the white space around it. Bytes that are
/// not valid UTF-8 are an error: no placeholder stands in for them.
pub fn from_utf8(buf: &Vec<u8>) -> (r: Result<String, ParseError>)
    ensures
        chars_of(r) == text_of(trim(buf@)),
{
    let content: Vec<u8> = trimmed(buf.as_slice());
    to_text(content.as_slice())
}

/// `text` without its line breaks: its lines joined into one.
pub open spec fn one_line(text: Seq<char>) -> Seq<char> {
    text.filter(|c: char| c != '\n')
}

/// The bytes that encode a character hold a `NEWLINE` only where they encode
/// the line break.
proof fn lemma_fold_of_character(c: char)
    ensures
        fold(encode_scalar(c as u32)) == (if c == '\n' {
            Seq::<u8>::empty()
        } else {
            encode_scalar(c as u32)
        }),
{
    let scalar = c as u32;
    let bytes = encode_scalar(scalar);
    char_is_scalar(c);
    char_u32_cast(c, scalar);
    char_u32_cast('\n', 10u32);
    reveal_with_fuel(Seq::filter, 5);
    assert(scalar <= 0x7f ==> (scalar & 0x7F) as u8 == scalar) by (bit_vector);
    assert((0xC0u8 | ((scalar >> 6) & 0x1F) as u8) >= 0xc0) by (bit_vector);
    assert((0xE0u8 | ((scalar >> 12) & 0x0F) as u8) >= 0xe0) by (bit_vector);
    assert((0xF0u8 | ((scalar >> 18) & 0x7) as u8) >= 0xf0) by (bit_vector);
    assert((0x80u8 | (scalar & 0x3F) as u8) >= 0x80) by (bit_vector);
    assert((0x80u8 | ((scalar >> 6) & 0x3F) as u8) >= 0x80) by (bit_vector);
    assert((0x80u8 | ((scalar >> 12) & 0x3F) as u8) >= 0x80) by (bit_vector);
    if c != '\n' {
        assert(free_of(bytes, NEWLINE));
        lemma_fold_of_one_line(bytes);
    } else {
        assert(bytes =~= seq![NEWLINE]);
        assert(fold(bytes) =~= Seq::<u8>::empty());
    }
}

/// Joining the lines of a text and joining the lines of the bytes that encode
/// it come to the same.
pub proof fn lemma_fold_encodes(text: Seq<char>)
    ensures
        fold(encode_utf8(text)) == encode_utf8(one_line(text)),
    decreases text.len(),
{
    let keep = |c: char| c != '\n';
    if text.len() == 0 {
        reveal(Seq::filter);
    } else {
        let first = encode_scalar(text[0] as u32);
        let rest = text.drop_first();
        lemma_fold_encodes(rest);
        lemma_fold_of_character(text[0]);
        Seq::filter_distributes_over_add(first, encode_utf8(rest), |b: u8| b != NEWLINE);
        rest.lemma_filter_prepend(text[0], keep);
        assert(seq![text[0]] + rest =~= text);
        if text[0] != '\n' {
            assert((seq![text[0]] + one_line(rest)).drop_first() =~= one_line(rest));
        } else {
            assert(Seq::<char>::empty() + one_line(rest) =~= one_line(rest));
            assert(Seq::<u8>::empty() + encode_utf8(one_line(rest)) =~= encode_utf8(
                one_line(rest),
            ));
        }
    }
}

/// A text whose lines are joined into one holds no line break.
pub proof fn lemma_one_line_has_no_break(text: Seq<char>)
    ensures
        !one_line(text).contains('\n'),
{
    let keep = |c: char| c != '\n';
    if one_line(text).contains('\n') {
        let i = choose|i: int| 0 <= i < one_line(text).len() && one_line(text)[i] == '\n';
        text.lemma_filter_pred(keep, i);
    }
}

/// Text whose bytes hold no `NEWLINE` is one line already.
pub proof fn lemma_one_line_of_text(bytes: Seq<u8>)
    requires
        valid_utf8(bytes),
        free_of(bytes, NEWLINE),
    ensures
        one_line(decode_utf8(bytes)) == decode_utf8(bytes),
{
    let text = decode_utf8(bytes);
    decode_utf8_encode_utf8(bytes);
    lemma_fold_of_one_line(bytes);
    lemma_fold_encodes(text);
    encode_utf8_decode_utf8(one_line(text));
}

/// Copies `text` without its line breaks.
pub fn as_one_line(text: &str) -> (out: String)
    ensures
        out@ == one_line(text@),
{
    let joined: Vec<u8> = folded(text.as_bytes());
    proof {
        lemma_fold_encodes(text@);
        encode_utf8_valid_utf8(one_line(text@));
        encode_utf8_decode_utf8(one_line(text@));
    }
    match decode(joined.as_slice()) {
        Some(out) => out,
        None => String::new(),
    }
}

} // verus!
