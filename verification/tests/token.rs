use code_ls::cursor::Cursor;
use code_ls::error::FormatError;
use code_ls::error::ParseError;
use code_ls::mark::FileMark;
use code_ls::token::at_filemark;
use code_ls::token::parse_empty_line;
use code_ls::token::parse_file_mark;
use code_ls::token::parse_file_path;
use code_ls::token::parse_line_number_and_blank;
use code_ls::token::parse_optional_mark;
use code_ls::token::parse_symbol;
use code_ls::token::parse_to_end;
use code_ls::token::parse_until_empty_line;
use code_ls::token::parse_until_next_source_line;
use code_ls::token::peek;

fn cursor(bytes: &[u8]) -> Cursor {
    Cursor::new(bytes.to_vec())
}

#[test]
fn peek_gives_the_next_byte_and_stays() {
    let mut cur = cursor(b"ab");
    assert_eq!(peek(&mut cur), b'a');
    assert_eq!(cur.position(), 0);
    assert_eq!(peek(&mut cur), b'a');
    cur.seek(1);
    assert_eq!(peek(&mut cur), b'b');
    assert_eq!(cur.position(), 1);
}

#[test]
fn peek_at_the_end_gives_zero_and_stays() {
    let mut cur = cursor(b"ab");
    cur.seek(2);
    assert_eq!(peek(&mut cur), 0);
    assert_eq!(cur.position(), 2);
    let mut empty = cursor(b"");
    assert_eq!(peek(&mut empty), 0);
    assert_eq!(empty.position(), 0);
}

#[test]
fn a_mark_is_a_tab_and_a_kind() {
    let mut cur = cursor(b"\t$main\n");
    assert_eq!(parse_file_mark(&mut cur), Ok(FileMark::FunctionDefinition));
    assert_eq!(cur.position(), 2);
}

#[test]
fn a_mark_of_an_unknown_kind_is_read() {
    let mut cur = cursor(b"\tZname\n");
    assert_eq!(parse_file_mark(&mut cur), Ok(FileMark::Unrecognized));
    assert_eq!(cur.position(), 2);
    let mut other = cursor(b"\t\n");
    assert_eq!(parse_file_mark(&mut other), Ok(FileMark::Unrecognized));
    assert_eq!(other.position(), 2);
}

#[test]
fn a_mark_without_a_tab_is_an_error() {
    let mut cur = cursor(b"$main\n");
    assert_eq!(parse_file_mark(&mut cur), Err(ParseError::Format(FormatError::Tab)));
    assert_eq!(cur.position(), 1);
    let mut space = cursor(b" $");
    assert_eq!(parse_file_mark(&mut space), Err(ParseError::Format(FormatError::Tab)));
}

#[test]
fn a_mark_at_the_end_is_an_error() {
    let mut cur = cursor(b"");
    assert_eq!(parse_file_mark(&mut cur), Err(ParseError::Format(FormatError::Tab)));
    assert_eq!(cur.position(), 0);
}

#[test]
fn a_tab_at_the_end_is_a_mark_of_no_known_kind() {
    let mut cur = cursor(b"\t");
    assert_eq!(parse_file_mark(&mut cur), Ok(FileMark::Unrecognized));
    assert_eq!(cur.position(), 1);
}

#[test]
fn an_optional_mark_is_read_where_a_tab_stands() {
    let mut cur = cursor(b"\t`printf\n");
    assert_eq!(parse_optional_mark(&mut cur), Ok(Some(FileMark::FunctionCall)));
    assert_eq!(cur.position(), 2);
}

#[test]
fn an_optional_mark_is_absent_where_no_tab_stands() {
    let mut cur = cursor(b"printf\n");
    assert_eq!(parse_optional_mark(&mut cur), Ok(None));
    assert_eq!(cur.position(), 0);
    let mut end = cursor(b"");
    assert_eq!(parse_optional_mark(&mut end), Ok(None));
    assert_eq!(end.position(), 0);
}

#[test]
fn at_filemark_sees_the_mark_of_a_file_and_stays() {
    let mut cur = cursor(b"x\t@main.c\n");
    cur.seek(1);
    assert!(at_filemark(&mut cur));
    assert_eq!(cur.position(), 1);
}

#[test]
fn at_filemark_sees_no_other_mark_and_stays() {
    let mut cur = cursor(b"\t$main\n");
    assert!(!at_filemark(&mut cur));
    assert_eq!(cur.position(), 0);
    let mut number = cursor(b"12 int\n");
    assert!(!at_filemark(&mut number));
    assert_eq!(number.position(), 0);
    let mut at_sign = cursor(b"@");
    assert!(!at_filemark(&mut at_sign));
    assert_eq!(at_sign.position(), 0);
}

#[test]
fn at_filemark_at_the_end_stays() {
    let mut tab = cursor(b"ab\t");
    tab.seek(2);
    assert!(!at_filemark(&mut tab));
    assert_eq!(tab.position(), 2);
    tab.seek(3);
    assert!(!at_filemark(&mut tab));
    assert_eq!(tab.position(), 3);
}

#[test]
fn a_line_is_read_without_its_newline() {
    let mut cur = cursor(b"int \nnext");
    assert_eq!(parse_to_end(&mut cur), Ok("int ".to_string()));
    assert_eq!(cur.position(), 5);
    assert_eq!(parse_to_end(&mut cur), Ok("next".to_string()));
    assert_eq!(cur.position(), 9);
    assert_eq!(parse_to_end(&mut cur), Ok(String::new()));
    assert_eq!(cur.position(), 9);
}

#[test]
fn a_line_keeps_its_white_space() {
    let mut cur = cursor(b"  a \t\r\n");
    assert_eq!(parse_to_end(&mut cur), Ok("  a \t\r".to_string()));
}

#[test]
fn a_line_that_is_no_text_is_an_error() {
    let mut cur = cursor(&[b'a', 0xff, b'\n', b'b']);
    assert_eq!(parse_to_end(&mut cur), Err(ParseError::Encoding));
    assert_eq!(cur.position(), 3);
}

#[test]
fn a_path_is_the_rest_of_the_line() {
    let mut cur = cursor(b"src/main.c\n\n");
    assert_eq!(parse_file_path(&mut cur), Ok("src/main.c".to_string()));
    assert_eq!(cur.position(), 11);
    let mut utf8 = cursor("dir/été.c\n".as_bytes());
    assert_eq!(parse_file_path(&mut utf8), Ok("dir/été.c".to_string()));
    let mut bad = cursor(&[0xc3, b'\n']);
    assert_eq!(parse_file_path(&mut bad), Err(ParseError::Encoding));
}

#[test]
fn a_symbol_is_the_rest_of_the_line_trimmed() {
    let mut cur = cursor(b" main \t\nrest");
    assert_eq!(parse_symbol(&mut cur), Ok("main".to_string()));
    assert_eq!(cur.position(), 8);
    let mut plain = cursor(b"main\n");
    assert_eq!(parse_symbol(&mut plain), Ok("main".to_string()));
    let mut wide = cursor("\u{3000}main\u{a0}\n".as_bytes());
    assert_eq!(parse_symbol(&mut wide), Ok("main".to_string()));
    let mut bad = cursor(&[b' ', 0xff, b'\n']);
    assert_eq!(parse_symbol(&mut bad), Err(ParseError::Encoding));
    assert_eq!(bad.position(), 3);
}

#[test]
fn an_empty_line_is_one_newline() {
    let mut cur = cursor(b"\n\n");
    assert_eq!(parse_empty_line(&mut cur), Ok(()));
    assert_eq!(cur.position(), 1);
}

#[test]
fn a_line_that_is_not_empty_is_an_error() {
    let mut cur = cursor(b"x\n");
    assert_eq!(parse_empty_line(&mut cur), Err(ParseError::Format(FormatError::EmptyLine)));
    assert_eq!(cur.position(), 1);
    let mut nul = cursor(&[0, b'\n']);
    assert_eq!(parse_empty_line(&mut nul), Err(ParseError::Format(FormatError::EmptyLine)));
}

#[test]
fn a_missing_empty_line_is_an_error() {
    let mut cur = cursor(b"");
    assert_eq!(parse_empty_line(&mut cur), Err(ParseError::Format(FormatError::EmptyLine)));
    assert_eq!(cur.position(), 0);
}

#[test]
fn a_line_number_ends_with_a_space() {
    let mut cur = cursor(b"42 int x;\n");
    assert_eq!(parse_line_number_and_blank(&mut cur), Ok(42));
    assert_eq!(cur.position(), 3);
}

#[test]
fn a_line_number_may_end_the_bytes() {
    let mut cur = cursor(b"42");
    assert_eq!(parse_line_number_and_blank(&mut cur), Ok(42));
    assert_eq!(cur.position(), 2);
}

#[test]
fn a_line_number_may_have_white_space_around_it() {
    let mut cur = cursor(b"\n7 x");
    assert_eq!(parse_line_number_and_blank(&mut cur), Ok(7));
    assert_eq!(cur.position(), 3);
    let mut large = cursor(b"18446744073709551615 ");
    assert_eq!(parse_line_number_and_blank(&mut large), Ok(u64::MAX));
}

#[test]
fn a_line_number_that_is_no_number_is_an_error() {
    let error = Err(ParseError::Format(FormatError::LineNumber));
    let mut word = cursor(b"int x;\n");
    assert_eq!(parse_line_number_and_blank(&mut word), error);
    assert_eq!(word.position(), 4);
    let mut empty = cursor(b"");
    assert_eq!(parse_line_number_and_blank(&mut empty), error);
    let mut space = cursor(b" 12 ");
    assert_eq!(parse_line_number_and_blank(&mut space), error);
    assert_eq!(space.position(), 1);
    let mut large = cursor(b"18446744073709551616 ");
    assert_eq!(parse_line_number_and_blank(&mut large), error);
    let mut negative = cursor(b"-3 ");
    assert_eq!(parse_line_number_and_blank(&mut negative), error);
    let mut bad = cursor(&[0xff, b'1', b' ']);
    assert_eq!(parse_line_number_and_blank(&mut bad), error);
}

#[test]
fn lines_are_read_up_to_the_empty_one() {
    let mut cur = cursor(b"(int \n\tpargc\n)\n\n5 next");
    assert_eq!(parse_until_empty_line(&mut cur), Ok("(int \n\tpargc\n)".to_string()));
    assert_eq!(cur.position(), 16);
}

#[test]
fn lines_are_trimmed_as_a_whole_and_keep_their_breaks() {
    let mut cur = cursor(b"  (int \n\tpargc \n ) \t\n\n5 next");
    assert_eq!(parse_until_empty_line(&mut cur), Ok("(int \n\tpargc \n )".to_string()));
    assert_eq!(cur.position(), 22);
    let mut wide = cursor("\u{a0}x\u{3000}\n\n".as_bytes());
    assert_eq!(parse_until_empty_line(&mut wide), Ok("x".to_string()));
    let mut blank = cursor(b" \t \n\n");
    assert_eq!(parse_until_empty_line(&mut blank), Ok(String::new()));
}

#[test]
fn lines_agree_with_str_trim() {
    let samples =
        ["(void)\n", "  a \n b\n  c  \n", "\t}\n}\n", " \n", "x\r\n", "\u{2003}é \n\tz\u{85}\n"];
    for sample in samples {
        let mut bytes = sample.as_bytes().to_vec();
        bytes.extend_from_slice(b"\nrest");
        let mut cur = Cursor::new(bytes);
        let expected = sample.trim().to_string();
        assert_eq!(parse_until_empty_line(&mut cur), Ok(expected), "{:?}", sample);
        assert_eq!(cur.position(), sample.len() as u64 + 1);
    }
}

#[test]
fn an_empty_line_at_once_gives_no_text() {
    let mut cur = cursor(b"\nrest");
    assert_eq!(parse_until_empty_line(&mut cur), Ok(String::new()));
    assert_eq!(cur.position(), 1);
}

#[test]
fn bytes_that_end_before_an_empty_line_are_an_error() {
    let error = Err(ParseError::Format(FormatError::Unterminated));
    let mut cur = cursor(b"(void)\n");
    assert_eq!(parse_until_empty_line(&mut cur), error);
    assert_eq!(cur.position(), 7);
    let mut open = cursor(b"(void)");
    assert_eq!(parse_until_empty_line(&mut open), error);
    assert_eq!(open.position(), 6);
    let mut one = cursor(b"x");
    assert_eq!(parse_until_empty_line(&mut one), error);
    let mut empty = cursor(b"");
    assert_eq!(parse_until_empty_line(&mut empty), error);
    assert_eq!(empty.position(), 0);
}

#[test]
fn lines_that_are_no_text_are_an_error() {
    let mut cur = cursor(&[b'(', 0xff, b'\n', b'\n', b'x']);
    assert_eq!(parse_until_empty_line(&mut cur), Err(ParseError::Encoding));
    assert_eq!(cur.position(), 4);
}

#[test]
fn a_character_that_a_line_break_parts_is_no_text() {
    let mut cur = cursor(&[0xc3, b'\n', 0xa9, b'\n', b'\n']);
    assert_eq!(parse_until_empty_line(&mut cur), Err(ParseError::Encoding));
    assert_eq!(cur.position(), 5);
}

#[test]
fn groups_are_read_up_to_a_source_line() {
    let mut cur = cursor(b"(void)\n\n7 int\n");
    assert_eq!(parse_until_next_source_line(&mut cur), Ok(vec!["(void)".to_string()]));
    assert_eq!(cur.position(), 8);
}

#[test]
fn groups_are_read_up_to_a_block() {
    let mut cur = cursor(b"(void)\n\n\t@next.c\n");
    assert_eq!(parse_until_next_source_line(&mut cur), Ok(vec!["(void)".to_string()]));
    assert_eq!(cur.position(), 8);
}

#[test]
fn groups_before_a_source_line_are_all_read() {
    let mut cur = cursor(b"a\nb\n\n\t}\n}\n\nc\n\n9 x");
    assert_eq!(
        parse_until_next_source_line(&mut cur),
        Ok(vec!["a\nb".to_string(), "}\n}".to_string(), "c".to_string()])
    );
    assert_eq!(cur.position(), 14);
}

#[test]
fn groups_that_end_the_bytes_are_an_error() {
    let mut cur = cursor(b"(void)\n\n");
    assert_eq!(
        parse_until_next_source_line(&mut cur),
        Err(ParseError::Format(FormatError::Unterminated))
    );
    assert_eq!(cur.position(), 8);
    let mut bad = cursor(&[0xff, b'\n', b'\n', b'1']);
    assert_eq!(parse_until_next_source_line(&mut bad), Err(ParseError::Encoding));
}
