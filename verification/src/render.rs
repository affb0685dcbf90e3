//! The listing of the function definitions of a database, file by file.

use crate::cscope::all_in_file;
use crate::cscope::Cscope;
use crate::cscope::Symbol;
use crate::cscope::SymbolView;
use crate::mark::FileMark;
use vstd::prelude::*;
use vstd::string::StrSliceExecFns;
use vstd::string::StringExecFns;
use vstd::utf8::encode_utf8;

verus! {

/// The width to which the text after a symbol is filled.
pub const SIGNATURE_WIDTH: usize = 16;

/// A line of the listing: the heading of a file, or a function defined in it.
pub enum Line {
    Heading(Seq<char>),
    Entry(SymbolView),
}

/// The symbol is the definition of a function.
pub open spec fn is_function(symbol: SymbolView) -> bool {
    symbol.mark == FileMark::FunctionDefinition
}

/// The lines that `symbols` are listed as, `current` being the file of the
/// last heading. Only function definitions are listed. One in another file
/// than `current` gets the heading of its file first.
pub open spec fn layout(symbols: Seq<SymbolView>, current: Seq<char>) -> Seq<Line>
    decreases symbols.len(),
{
    if symbols.len() == 0 {
        Seq::empty()
    } else if !is_function(symbols.first()) {
        layout(symbols.drop_first(), current)
    } else if symbols.first().filename != current {
        seq![Line::Heading(symbols.first().filename), Line::Entry(symbols.first())] + layout(
            symbols.drop_first(),
            symbols.first().filename,
        )
    } else {
        seq![Line::Entry(symbols.first())] + layout(symbols.drop_first(), current)
    }
}

/// The length in bytes of the longest name among the function definitions in
/// `symbols`, or 0 where there is none.
pub open spec fn name_width(symbols: Seq<SymbolView>) -> nat
    decreases symbols.len(),
{
    if symbols.len() == 0 {
        0
    } else {
        let width = name_width(symbols.drop_last());
        let len = encode_utf8(symbols.last().name).len();
        if is_function(symbols.last()) && len > width {
            len
        } else {
            width
        }
    }
}

/// `count` spaces.
pub open spec fn spaces(count: int) -> Seq<char> {
    Seq::new(
        if count > 0 {
            count as nat
        } else {
            0
        },
        |i: int| ' ',
    )
}

/// `text`, and after it the spaces that it lacks to be `width` characters
/// long.
pub open spec fn padded(text: Seq<char>, width: nat) -> Seq<char> {
    text + spaces(width - text.len())
}

/// The character that writes a number below ten.
pub open spec fn digit(d: nat) -> char {
    if d == 0 {
        '0'
    } else if d == 1 {
        '1'
    } else if d == 2 {
        '2'
    } else if d == 3 {
        '3'
    } else if d == 4 {
        '4'
    } else if d == 5 {
        '5'
    } else if d == 6 {
        '6'
    } else if d == 7 {
        '7'
    } else if d == 8 {
        '8'
    } else {
        '9'
    }
}

/// `n` in base ten.
pub open spec fn decimal(n: nat) -> Seq<char>
    decreases n,
{
    if n < 10 {
        seq![digit(n)]
    } else {
        decimal(n / 10).push(digit(n % 10))
    }
}

/// The text around a function's name: what stands before it on its line, a
/// space, and what follows it.
pub open spec fn signature(symbol: SymbolView) -> Seq<char> {
    symbol.non_sym_text1 + " "@ + symbol.non_sym_text2
}

/// A line of the listing as text, the names filled to `width` characters.
pub open spec fn line_text(line: Line, width: nat) -> Seq<char> {
    match line {
        Line::Heading(filename) => "•"@ + filename + ":\n╰─╮\n"@,
        Line::Entry(symbol) => "  ├ "@ + padded(symbol.name, width) + " "@ + padded(
            signature(symbol),
            SIGNATURE_WIDTH as nat,
        ) + "), line:"@ + decimal(symbol.line_number as nat) + "\n"@,
    }
}

/// The lines as one text.
pub open spec fn text(lines: Seq<Line>, width: nat) -> Seq<char>
    decreases lines.len(),
{
    if lines.len() == 0 {
        Seq::empty()
    } else {
        line_text(lines.first(), width) + text(lines.drop_first(), width)
    }
}

/// The listing of `symbols`.
pub open spec fn rendered(symbols: Seq<SymbolView>) -> Seq<char> {
    text(layout(symbols, Seq::empty()), name_width(symbols))
}

/// The text of lines that follow one another is the text of the first lines
/// and then that of the others.
pub proof fn lemma_text_concat(first: Seq<Line>, others: Seq<Line>, width: nat)
    ensures
        text(first + others, width) == text(first, width) + text(others, width),
    decreases first.len(),
{
    if first.len() > 0 {
        lemma_text_concat(first.drop_first(), others, width);
        assert((first + others).drop_first() =~= first.drop_first() + others);
    }
}

/// The file of the last heading once `symbols` are listed, `current` being
/// the file of the last heading before them.
pub open spec fn current_after(symbols: Seq<SymbolView>, current: Seq<char>) -> Seq<char>
    decreases symbols.len(),
{
    if symbols.len() == 0 {
        current
    } else if is_function(symbols.first()) {
        current_after(symbols.drop_first(), symbols.first().filename)
    } else {
        current_after(symbols.drop_first(), current)
    }
}

/// The files that the headings among `lines` name, in order.
pub open spec fn headings(lines: Seq<Line>) -> Seq<Seq<char>>
    decreases lines.len(),
{
    if lines.len() == 0 {
        Seq::empty()
    } else {
        match lines.first() {
            Line::Heading(filename) => seq![filename] + headings(lines.drop_first()),
            Line::Entry(_) => headings(lines.drop_first()),
        }
    }
}

/// A function is defined among `symbols`.
pub open spec fn has_function(symbols: Seq<SymbolView>) -> bool {
    exists|j: int| 0 <= j < symbols.len() && is_function(#[trigger] symbols[j])
}

/// The larger of two widths.
pub open spec fn wider(a: nat, b: nat) -> nat {
    if a >= b {
        a
    } else {
        b
    }
}

/// Symbols that follow others are listed after them, under the heading that
/// the others left.
pub proof fn lemma_layout_concat(
    first: Seq<SymbolView>,
    others: Seq<SymbolView>,
    current: Seq<char>,
)
    ensures
        layout(first + others, current) == layout(first, current) + layout(
            others,
            current_after(first, current),
        ),
        current_after(first + others, current) == current_after(
            others,
            current_after(first, current),
        ),
    decreases first.len(),
{
    if first.len() > 0 {
        let head = first.first();
        let next = if is_function(head) {
            head.filename
        } else {
            current
        };
        assert((first + others).drop_first() =~= first.drop_first() + others);
        lemma_layout_concat(first.drop_first(), others, next);
        assert(layout(first + others, current) =~= layout(first, current) + layout(
            others,
            current_after(first, current),
        ));
    }
}

/// The headings of lines that follow one another are those of the first lines
/// and then those of the others.
pub proof fn lemma_headings_concat(first: Seq<Line>, others: Seq<Line>)
    ensures
        headings(first + others) == headings(first) + headings(others),
    decreases first.len(),
{
    if first.len() > 0 {
        lemma_headings_concat(first.drop_first(), others);
        assert((first + others).drop_first() =~= first.drop_first() + others);
    }
}

/// The widest name among symbols that follow one another is the wider of
/// the widest among the first and the widest among the others.
pub proof fn lemma_name_width_concat(first: Seq<SymbolView>, others: Seq<SymbolView>)
    ensures
        name_width(first + others) == wider(name_width(first), name_width(others)),
    decreases others.len(),
{
    if others.len() > 0 {
        lemma_name_width_concat(first, others.drop_last());
        assert((first + others).drop_last() =~= first + others.drop_last());
    }
}

/// The symbols of one file, listed under the heading of that file, get no
/// heading. Listed under another heading, they get one, where a function is
/// defined among them.
pub proof fn lemma_headings_of_file(
    symbols: Seq<SymbolView>,
    filename: Seq<char>,
    current: Seq<char>,
)
    requires
        all_in_file(symbols, filename),
    ensures
        headings(layout(symbols, current)) == (if current != filename && has_function(symbols) {
            seq![filename]
        } else {
            Seq::empty()
        }),
        current_after(symbols, current) == (if has_function(symbols) {
            filename
        } else {
            current
        }),
    decreases symbols.len(),
{
    if symbols.len() > 0 {
        let head = symbols.first();
        let rest = symbols.drop_first();
        assert(all_in_file(rest, filename));
        if is_function(head) {
            lemma_headings_of_file(rest, filename, filename);
            if current != filename {
                let lines = seq![Line::Heading(filename), Line::Entry(head)];
                lemma_headings_concat(lines, layout(rest, filename));
                reveal_with_fuel(headings, 3);
            } else {
                let lines = seq![Line::Entry(head)];
                lemma_headings_concat(lines, layout(rest, filename));
                reveal_with_fuel(headings, 2);
            }
        } else {
            lemma_headings_of_file(rest, filename, current);
            if has_function(symbols) {
                let j = choose|j: int| 0 <= j < symbols.len() && is_function(#[trigger] symbols[j]);
                assert(rest[j - 1] == symbols[j]);
            }
        }
    }
}

/// Every file gets one heading. Where the symbols are those of one file
/// after another, each file with a function definition of its own and under
/// another name than the file before it, and the first file under a name that
/// is not empty, the headings of the listing are the names of the files, in the
/// order of the files.
pub proof fn lemma_one_heading_per_file(blocks: Seq<Seq<SymbolView>>, names: Seq<Seq<char>>)
    requires
        blocks.len() == names.len(),
        forall|i: int| 0 <= i < blocks.len() ==> all_in_file(#[trigger] blocks[i], names[i]),
        forall|i: int| 0 <= i < blocks.len() ==> has_function(#[trigger] blocks[i]),
        forall|i: int| 0 < i < names.len() ==> #[trigger] names[i] != names[i - 1],
        names.len() > 0 ==> names[0] != Seq::<char>::empty(),
    ensures
        headings(layout(blocks.flatten(), Seq::empty())) == names,
{
    lemma_headings_from(blocks, names, Seq::empty());
}

/// The same, under any heading but that of the first file.
proof fn lemma_headings_from(
    blocks: Seq<Seq<SymbolView>>,
    names: Seq<Seq<char>>,
    current: Seq<char>,
)
    requires
        blocks.len() == names.len(),
        forall|i: int| 0 <= i < blocks.len() ==> all_in_file(#[trigger] blocks[i], names[i]),
        forall|i: int| 0 <= i < blocks.len() ==> has_function(#[trigger] blocks[i]),
        forall|i: int| 0 < i < names.len() ==> #[trigger] names[i] != names[i - 1],
        names.len() > 0 ==> names[0] != current,
    ensures
        headings(layout(blocks.flatten(), current)) == names,
    decreases blocks.len(),
{
    if blocks.len() > 0 {
        let block = blocks.first();
        let name = names.first();
        let rest = blocks.drop_first();
        let rest_names = names.drop_first();
        lemma_headings_of_file(block, name, current);
        lemma_headings_from(rest, rest_names, name);
        lemma_layout_concat(block, rest.flatten(), current);
        lemma_headings_concat(layout(block, current), layout(rest.flatten(), name));
    }
}

/// The file of the heading under which line `k` stands: that of the last
/// heading at or before `k`, or `current` where there is none.
pub open spec fn heading_over(lines: Seq<Line>, k: int, current: Seq<char>) -> Seq<char>
    decreases k + 1,
{
    if k < 0 || k >= lines.len() {
        current
    } else {
        match lines[k] {
            Line::Heading(filename) => filename,
            Line::Entry(_) => heading_over(lines, k - 1, current),
        }
    }
}

/// Line `k` is in its place: a function definition stands under the heading
/// of its file, and a heading stands just before a function definition of the
/// file that it names.
pub open spec fn in_place(lines: Seq<Line>, k: int, current: Seq<char>) -> bool {
    match lines[k] {
        Line::Entry(symbol) => is_function(symbol) && heading_over(lines, k, current)
            == symbol.filename,
        Line::Heading(filename) => k + 1 < lines.len() && lines[k + 1] is Entry && lines[k
            + 1]->Entry_0.filename == filename,
    }
}

/// The heading over a line among the first of two runs of lines is what it
/// is in the first run alone.
pub proof fn lemma_heading_over_first(
    first: Seq<Line>,
    others: Seq<Line>,
    k: int,
    current: Seq<char>,
)
    requires
        k < first.len(),
    ensures
        heading_over(first + others, k, current) == heading_over(first, k, current),
    decreases k + 1,
{
    if k >= 0 {
        lemma_heading_over_first(first, others, k - 1, current);
    }
}

/// The heading over a line among the others of two runs of lines is what it
/// is in the others alone, under the heading that the first run left.
pub proof fn lemma_heading_over_others(
    first: Seq<Line>,
    others: Seq<Line>,
    k: int,
    current: Seq<char>,
)
    requires
        first.len() <= k < first.len() + others.len(),
    ensures
        heading_over(first + others, k, current) == heading_over(
            others,
            k - first.len(),
            heading_over(first, first.len() - 1, current),
        ),
    decreases k + 1,
{
    assert((first + others)[k] == others[k - first.len()]);
    reveal_with_fuel(heading_over, 2);
    if k > first.len() {
        lemma_heading_over_others(first, others, k - 1, current);
    } else {
        lemma_heading_over_first(first, others, k - 1, current);
    }
}

/// Every line of a listing is in its place: each heading stands before the
/// function definitions of its file, and each function definition under the
/// heading of its file.
pub proof fn lemma_listing_is_in_place(symbols: Seq<SymbolView>, current: Seq<char>)
    ensures
        forall|k: int|
            0 <= k < layout(symbols, current).len() ==> in_place(
                layout(symbols, current),
                k,
                current,
            ),
    decreases symbols.len(),
{
    let lines = layout(symbols, current);
    if symbols.len() > 0 {
        let head = symbols.first();
        let rest = symbols.drop_first();
        if !is_function(head) {
            lemma_listing_is_in_place(rest, current);
            assert(lines == layout(rest, current));
        } else {
            let first = if head.filename != current {
                seq![Line::Heading(head.filename), Line::Entry(head)]
            } else {
                seq![Line::Entry(head)]
            };
            let others = layout(rest, head.filename);
            lemma_listing_is_in_place(rest, head.filename);
            assert(lines =~= first + others);
            assert forall|k: int| 0 <= k < lines.len() implies in_place(lines, k, current) by {
                if k < first.len() {
                    lemma_heading_over_first(first, others, k, current);
                    reveal_with_fuel(heading_over, 3);
                } else {
                    lemma_heading_over_others(first, others, k, current);
                    reveal_with_fuel(heading_over, 3);
                    assert(in_place(others, k - first.len(), head.filename));
                    assert(lines[k] == others[k - first.len()]);
                    if k + 1 < lines.len() {
                        assert(lines[k + 1] == others[k + 1 - first.len()]);
                    }
                }
            }
        }
    }
}

/// A symbol that is no function definition leaves the listing as it is
/// without it.
pub proof fn lemma_only_functions_are_listed(symbols: Seq<SymbolView>, i: int)
    requires
        0 <= i < symbols.len(),
        !is_function(symbols[i]),
    ensures
        rendered(symbols) == rendered(symbols.remove(i)),
{
    let before = symbols.take(i);
    let one = seq![symbols[i]];
    let after = symbols.skip(i + 1);
    assert(symbols =~= before + (one + after));
    assert((one + after).drop_first() =~= after);
    lemma_layout_concat(before, one + after, Seq::empty());
    lemma_layout_concat(before, after, Seq::empty());
    lemma_name_width_concat(before, one + after);
    lemma_name_width_concat(before, after);
    lemma_name_width_concat(one, after);
    assert(name_width(one) == 0) by {
        reveal_with_fuel(name_width, 2);
    }
}

/// One more line adds its text at the end.
pub proof fn lemma_text_push(lines: Seq<Line>, line: Line, width: nat)
    ensures
        text(lines.push(line), width) == text(lines, width) + line_text(line, width),
{
    let one = seq![line];
    assert(lines.push(line) =~= lines + one);
    lemma_text_concat(lines, one, width);
    assert(text(one, width) =~= line_text(line, width)) by {
        reveal_with_fuel(text, 2);
    }
}

/// The string that writes a number below ten.
fn digit_str(d: u64) -> (s: &'static str)
    requires
        d < 10,
    ensures
        s@ == seq![digit(d as nat)],
{
    proof {
        reveal_strlit("0");
        reveal_strlit("1");
        reveal_strlit("2");
        reveal_strlit("3");
        reveal_strlit("4");
        reveal_strlit("5");
        reveal_strlit("6");
        reveal_strlit("7");
        reveal_strlit("8");
        reveal_strlit("9");
    }
    let s: &'static str = if d == 0 {
        "0"
    } else if d == 1 {
        "1"
    } else if d == 2 {
        "2"
    } else if d == 3 {
        "3"
    } else if d == 4 {
        "4"
    } else if d == 5 {
        "5"
    } else if d == 6 {
        "6"
    } else if d == 7 {
        "7"
    } else if d == 8 {
        "8"
    } else {
        "9"
    };
    s
}

/// Appends `n` in base ten to `out`.
fn push_decimal(out: &mut String, n: u64)
    ensures
        final(out)@ == old(out)@ + decimal(n as nat),
    decreases n,
{
    if n >= 10 {
        push_decimal(out, n / 10);
    }
    out.append(digit_str(n % 10));
    proof {
        if n >= 10 {
            assert(old(out)@ + decimal(n as nat / 10) + seq![digit(n as nat % 10)] =~= old(out)@
                + decimal(n as nat));
        }
    }
}

/// Appends `text` to `out`, and the spaces that it lacks to be `width`
/// characters long.
fn push_padded(out: &mut String, text: &str, width: usize)
    ensures
        final(out)@ == old(out)@ + padded(text@, width as nat),
{
    out.append(text);
    let len: usize = text.unicode_len();
    let mut filled: usize = len;
    proof {
        reveal_strlit(" ");
    }
    while filled < width
        invariant
            len == text@.len(),
            len <= filled,
            filled <= width || filled == len,
            out@ == old(out)@ + text@ + spaces(filled - len),
        decreases width - filled,
    {
        out.append(" ");
        proof {
            reveal_strlit(" ");
            assert(old(out)@ + text@ + spaces(filled - len) + " "@ =~= old(out)@ + text@ + spaces(
                filled + 1 - len,
            ));
        }
        filled += 1;
    }
    proof {
        assert(old(out)@ + text@ + spaces(filled - len) =~= old(out)@ + padded(
            text@,
            width as nat,
        ));
    }
}

/// Appends the line of a function definition to `out`.
fn push_entry(out: &mut String, symbol: &Symbol, width: usize)
    ensures
        final(out)@ == old(out)@ + line_text(Line::Entry(symbol@), width as nat),
{
    let mut sig: String = symbol.non_sym_text1.clone();
    sig.append(" ");
    sig.append(symbol.non_sym_text2.as_str());
    out.append("  ├ ");
    push_padded(out, symbol.name.as_str(), width);
    out.append(" ");
    push_padded(out, sig.as_str(), SIGNATURE_WIDTH);
    out.append("), line:");
    push_decimal(out, symbol.line_number);
    out.append("\n");
}

impl Cscope {
    /// The length in bytes of the longest name of a function definition.
    fn widest_name(&self) -> (width: usize)
        ensures
            width == name_width(self@.symbols),
    {
        let mut width: usize = 0;
        let mut i: usize = 0;
        let ghost symbols = self@.symbols;
        while i < self.symbols.len()
            invariant
                i <= self.symbols@.len(),
                symbols == self@.symbols,
                width == name_width(symbols.take(i as int)),
            decreases self.symbols@.len() - i,
        {
            let symbol: &Symbol = &self.symbols[i];
            proof {
                assert(symbols.take(i + 1).drop_last() =~= symbols.take(i as int));
            }
            if symbol.mark == FileMark::FunctionDefinition {
                let len: usize = symbol.name.as_str().as_bytes().len();
                if len > width {
                    width = len;
                }
            }
            i += 1;
        }
        assert(symbols.take(i as int) =~= symbols);
        width
    }

    /// Lists the function definitions, in the order in which they were read:
    /// the heading of a file where the file changes, and under it a line for
    /// each function with its name, the text around the name, and its line
    /// number. A database without function definitions gives the empty
    /// string.
    pub fn render(&self) -> (out: String)
        ensures
            out@ == rendered(self@.symbols),
    {
        let width: usize = self.widest_name();
        let mut out: String = String::new();
        let mut current: String = String::new();
        let mut i: usize = 0;
        let ghost symbols = self@.symbols;
        let ghost lines = Seq::<Line>::empty();
        proof {
            assert(symbols.skip(0) =~= symbols);
        }
        while i < self.symbols.len()
            invariant
                i <= self.symbols@.len(),
                symbols == self@.symbols,
                width == name_width(symbols),
                out@ == text(lines, width as nat),
                lines + layout(symbols.skip(i as int), current@) == layout(symbols, Seq::empty()),
            decreases self.symbols@.len() - i,
        {
            let symbol: &Symbol = &self.symbols[i];
            let ghost rest = symbols.skip(i + 1);
            proof {
                assert(symbols.skip(i as int).drop_first() =~= rest);
            }
            if symbol.mark == FileMark::FunctionDefinition {
                if !(symbol.filename == current) {
                    current = symbol.filename.clone();
                    out.append("•");
                    out.append(current.as_str());
                    out.append(":\n╰─╮\n");
                    proof {
                        let heading = Line::Heading(symbol@.filename);
                        lemma_text_push(lines, heading, width as nat);
                        assert(lines + (seq![heading, Line::Entry(symbol@)] + layout(
                            rest,
                            current@,
                        )) =~= lines.push(heading) + (seq![Line::Entry(symbol@)] + layout(
                            rest,
                            current@,
                        )));
                        assert(out@ =~= text(lines, width as nat) + line_text(
                            heading,
                            width as nat,
                        ));
                        lines = lines.push(heading);
                    }
                }
                push_entry(&mut out, symbol, width);
                proof {
                    let entry = Line::Entry(symbol@);
                    lemma_text_push(lines, entry, width as nat);
                    assert(lines + (seq![entry] + layout(rest, current@)) =~= lines.push(entry)
                        + layout(rest, current@));
                    lines = lines.push(entry);
                }
            }
            i += 1;
        }
        out
    }
}

} // verus!
