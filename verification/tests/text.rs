use code_ls::error::ParseError;
use code_ls::text::as_one_line;
use code_ls::text::chomped;
use code_ls::text::copy_range;
use code_ls::text::find;
use code_ls::text::folded;
use code_ls::text::from_utf8;
use code_ls::text::parse_number;
use code_ls::text::split_words;
use code_ls::text::stripped_zeros;
use code_ls::text::to_text;
use code_ls::text::trimmed;
use code_ls::text::trimmed_end;

#[test]
fn find_gives_the_first_delimiter() {
    assert_eq!(find(b"ab cd ef", 0, b' '), 2);
    assert_eq!(find(b"ab cd ef", 2, b' '), 2);
    assert_eq!(find(b"ab cd ef", 3, b' '), 5);
    assert_eq!(find(b"ab cd ef", 6, b' '), 8);
    assert_eq!(find(b"ab cd ef", 8, b' '), 8);
    assert_eq!(find(b"", 0, b' '), 0);
}

#[test]
fn copy_range_copies_the_bytes_between() {
    assert_eq!(copy_range(b"abcdef", 1, 4), b"bcd".to_vec());
    assert_eq!(copy_range(b"abcdef", 0, 6), b"abcdef".to_vec());
    assert_eq!(copy_range(b"abcdef", 3, 3), Vec::<u8>::new());
}

#[test]
fn split_words_splits_at_every_delimiter() {
    assert_eq!(split_words(b"a b c", b' '), vec![b"a".to_vec(), b"b".to_vec(), b"c".to_vec()]);
    assert_eq!(split_words(b"", b' '), vec![Vec::<u8>::new()]);
    assert_eq!(split_words(b"a", b' '), vec![b"a".to_vec()]);
    assert_eq!(split_words(b" ", b' '), vec![Vec::<u8>::new(), Vec::<u8>::new()]);
    assert_eq!(
        split_words(b"a  b ", b' '),
        vec![b"a".to_vec(), Vec::<u8>::new(), b"b".to_vec(), Vec::<u8>::new()]
    );
}

#[test]
fn split_words_agrees_with_str_split() {
    let samples = ["cscope 15 /home/x -c 0000000123\n", "", " ", "  a  ", "no-space", "a b", " x"];
    for sample in samples {
        let expected: Vec<Vec<u8>> = sample.split(' ').map(|w| w.as_bytes().to_vec()).collect();
        assert_eq!(split_words(sample.as_bytes(), b' '), expected);
    }
}

#[test]
fn trimmed_removes_white_space_at_both_ends() {
    assert_eq!(trimmed(b"  main \n"), b"main".to_vec());
    assert_eq!(trimmed(b"main"), b"main".to_vec());
    assert_eq!(trimmed(b"\t a b \r\n"), b"a b".to_vec());
    assert_eq!(trimmed(b" \n\t "), Vec::<u8>::new());
    assert_eq!(trimmed(b""), Vec::<u8>::new());
}

#[test]
fn trimmed_agrees_with_str_trim() {
    let samples = [
        "",
        " ",
        "main",
        "  main  ",
        "\u{a0}main\u{a0}",
        "\u{85}x\u{85}",
        "\u{1680}x\u{1680}",
        "\u{2000}\u{2001}\u{2002}\u{2003}\u{2004}\u{2005}x",
        "x\u{2006}\u{2007}\u{2008}\u{2009}\u{200a}",
        "\u{2028}x\u{2029}",
        "\u{202f}x\u{205f}",
        "\u{3000}x\u{3000}",
        "\u{b}\u{c}x\r\n",
        "\u{200b}x\u{200b}",
        "\u{180e}x\u{180e}",
        "\u{feff}x",
        "é é",
        " é ",
        "\u{a0}",
        "a\u{a0}b",
        "\u{2000}",
        "日本語 ",
    ];
    for sample in samples {
        assert_eq!(trimmed(sample.as_bytes()), sample.trim().as_bytes().to_vec(), "{:?}", sample);
        assert_eq!(
            trimmed_end(sample.as_bytes()),
            sample.trim_end().as_bytes().to_vec(),
            "{:?}",
            sample
        );
    }
}

#[test]
fn trimmed_agrees_with_str_trim_on_every_character() {
    let mut sample = String::new();
    for code in 0..0x11_0000u32 {
        if let Some(c) = char::from_u32(code) {
            sample.clear();
            sample.push(c);
            sample.push('x');
            sample.push(c);
            assert_eq!(trimmed(sample.as_bytes()), sample.trim().as_bytes(), "{:x}", code);
        }
    }
}

#[test]
fn trimmed_keeps_bytes_that_are_no_text() {
    assert_eq!(trimmed(&[0x20, 0xff, 0x20]), vec![0xff]);
    assert_eq!(trimmed(&[0x85, 0x31]), vec![0x85, 0x31]);
    assert_eq!(trimmed(&[0xc2]), vec![0xc2]);
    assert_eq!(trimmed(&[0xe2, 0x80]), vec![0xe2, 0x80]);
}

#[test]
fn chomped_removes_one_newline() {
    assert_eq!(chomped(b"int \n"), b"int ".to_vec());
    assert_eq!(chomped(b"int "), b"int ".to_vec());
    assert_eq!(chomped(b"int\n\n"), b"int\n".to_vec());
    assert_eq!(chomped(b"\n"), Vec::<u8>::new());
    assert_eq!(chomped(b""), Vec::<u8>::new());
    assert_eq!(chomped(b"int\r\n"), b"int\r".to_vec());
}

#[test]
fn folded_removes_every_newline() {
    assert_eq!(folded(b"(int \n\tpargc\n)\n"), b"(int \tpargc)".to_vec());
    assert_eq!(folded(b"\n\n"), Vec::<u8>::new());
    assert_eq!(folded(b"abc"), b"abc".to_vec());
    assert_eq!(folded(b""), Vec::<u8>::new());
}

#[test]
fn stripped_zeros_removes_the_zeros_at_the_start() {
    assert_eq!(stripped_zeros(b"0000000123\n"), b"123\n".to_vec());
    assert_eq!(stripped_zeros(b"100"), b"100".to_vec());
    assert_eq!(stripped_zeros(b"000"), Vec::<u8>::new());
    assert_eq!(stripped_zeros(b" 01"), b" 01".to_vec());
    assert_eq!(stripped_zeros(b""), Vec::<u8>::new());
}

#[test]
fn parse_number_reads_digits() {
    assert_eq!(parse_number(b"0", u64::MAX), Some(0));
    assert_eq!(parse_number(b"15", u64::MAX), Some(15));
    assert_eq!(parse_number(b"0015", u64::MAX), Some(15));
    assert_eq!(parse_number(b"+15", u64::MAX), Some(15));
    assert_eq!(parse_number(b"18446744073709551615", u64::MAX), Some(u64::MAX));
    assert_eq!(parse_number(b"4294967295", 0xffff_ffff), Some(0xffff_ffff));
}

#[test]
fn parse_number_refuses_what_is_no_number() {
    assert_eq!(parse_number(b"", u64::MAX), None);
    assert_eq!(parse_number(b"+", u64::MAX), None);
    assert_eq!(parse_number(b"-", u64::MAX), None);
    assert_eq!(parse_number(b"-1", u64::MAX), None);
    assert_eq!(parse_number(b"++1", u64::MAX), None);
    assert_eq!(parse_number(b"1+", u64::MAX), None);
    assert_eq!(parse_number(b" 1", u64::MAX), None);
    assert_eq!(parse_number(b"1 ", u64::MAX), None);
    assert_eq!(parse_number(b"1a", u64::MAX), None);
    assert_eq!(parse_number(b"1_000", u64::MAX), None);
    assert_eq!(parse_number(b"0x10", u64::MAX), None);
    assert_eq!(parse_number(&[0x31, 0xff], u64::MAX), None);
}

#[test]
fn parse_number_refuses_what_is_too_large() {
    assert_eq!(parse_number(b"18446744073709551616", u64::MAX), None);
    assert_eq!(parse_number(b"99999999999999999999999", u64::MAX), None);
    assert_eq!(parse_number(b"18446744073709551615x", u64::MAX), None);
    assert_eq!(parse_number(b"4294967296", 0xffff_ffff), None);
    assert_eq!(parse_number(b"10", 9), None);
    assert_eq!(parse_number(b"9", 9), Some(9));
    assert_eq!(parse_number(b"1", 0), None);
    assert_eq!(parse_number(b"0", 0), Some(0));
}

#[test]
fn parse_number_agrees_with_str_parse() {
    let samples = [
        "", "0", "00", "7", "+7", "-7", "+", "12345", "18446744073709551615",
        "18446744073709551616", "1e3", " 1", "٣", "１",
    ];
    for sample in samples {
        let bytes = sample.as_bytes();
        assert_eq!(parse_number(bytes, u64::MAX), sample.parse::<u64>().ok());
        assert_eq!(parse_number(bytes, 0xffff_ffff), sample.parse::<u32>().ok().map(u64::from));
    }
}

#[test]
fn from_utf8_decodes_text() {
    assert_eq!(from_utf8(&b"main".to_vec()), Ok("main".to_string()));
    assert_eq!(from_utf8(&Vec::new()), Ok(String::new()));
    assert_eq!(from_utf8(&"é•╰─╮ 日本".as_bytes().to_vec()), Ok("é•╰─╮ 日本".to_string()));
    assert_eq!(from_utf8(&vec![0xf0, 0x9f, 0x98, 0x80]), Ok("\u{1f600}".to_string()));
}

#[test]
fn from_utf8_trims_white_space() {
    assert_eq!(from_utf8(&b"  (void)\n\n".to_vec()), Ok("(void)".to_string()));
    assert_eq!(from_utf8(&b" int \n".to_vec()), Ok("int".to_string()));
    assert_eq!(from_utf8(&b"a\n b \nc\n".to_vec()), Ok("a\n b \nc".to_string()));
    assert_eq!(from_utf8(&b" \t\r\n".to_vec()), Ok(String::new()));
    assert_eq!(from_utf8(&"\u{3000}é\u{a0}".as_bytes().to_vec()), Ok("é".to_string()));
}

#[test]
fn from_utf8_agrees_with_str_trim() {
    let samples = ["", "  (void)\n\n", "x", " x", "x ", "\u{2028}a b\u{85}", "\n\n", "é\n"];
    for sample in samples {
        assert_eq!(from_utf8(&sample.as_bytes().to_vec()), Ok(sample.trim().to_string()));
    }
}

#[test]
fn from_utf8_refuses_white_space_around_what_is_no_text() {
    assert_eq!(from_utf8(&vec![0x20, 0xff, 0x0a]), Err(ParseError::Encoding));
    assert_eq!(from_utf8(&vec![0x0a, 0xc3]), Err(ParseError::Encoding));
}

#[test]
fn to_text_decodes_text_as_it_stands() {
    assert_eq!(to_text(b"main"), Ok("main".to_string()));
    assert_eq!(to_text(b""), Ok(String::new()));
    assert_eq!(to_text(b"  (void)\n\n"), Ok("  (void)\n\n".to_string()));
    assert_eq!(to_text(b" int \n"), Ok(" int \n".to_string()));
    assert_eq!(to_text("é•╰─╮ 日本".as_bytes()), Ok("é•╰─╮ 日本".to_string()));
}

#[test]
fn to_text_refuses_what_is_no_text() {
    assert_eq!(to_text(&[0xff]), Err(ParseError::Encoding));
    assert_eq!(to_text(&[0x61, 0x80]), Err(ParseError::Encoding));
    assert_eq!(to_text(&[0xed, 0xa0, 0x80]), Err(ParseError::Encoding));
}

#[test]
fn as_one_line_drops_every_line_break() {
    assert_eq!(as_one_line("(int \n\tpargc\n)"), "(int \tpargc)");
    assert_eq!(as_one_line("\n\n"), "");
    assert_eq!(as_one_line(""), "");
    assert_eq!(as_one_line("no break"), "no break");
    assert_eq!(as_one_line("é\n日本\n\u{1f600}\r\n"), "é日本\u{1f600}\r");
}

#[test]
fn as_one_line_agrees_with_retain() {
    let samples = ["a\nb", "\na\n\nb\n", "\u{a}\u{b}\u{85}\u{2028}", "été\n•╰─╮\n", "x"];
    for sample in samples {
        let mut expected = sample.to_string();
        expected.retain(|c| c != '\n');
        assert_eq!(as_one_line(sample), expected);
    }
}

#[test]
fn from_utf8_refuses_what_is_no_text() {
    assert_eq!(from_utf8(&vec![0xff]), Err(ParseError::Encoding));
    assert_eq!(from_utf8(&vec![0x61, 0x80]), Err(ParseError::Encoding));
    assert_eq!(from_utf8(&vec![0xc3]), Err(ParseError::Encoding));
    assert_eq!(from_utf8(&vec![0xc0, 0x80]), Err(ParseError::Encoding));
    assert_eq!(from_utf8(&vec![0xed, 0xa0, 0x80]), Err(ParseError::Encoding));
    assert_eq!(from_utf8(&vec![0xf4, 0x90, 0x80, 0x80]), Err(ParseError::Encoding));
}
