use autocommit::text::{
    contains, is_whitespace, join, split_lines, split_whitespace, to_chars, to_decimal,
};

fn s(x: &str) -> String {
    x.to_string()
}

#[test]
fn whitespace_is_what_unicode_calls_white_space() {
    for c in ['\t', '\n', '\u{b}', '\u{c}', '\r', ' ', '\u{85}', '\u{a0}', '\u{1680}', '\u{2000}',
        '\u{200a}', '\u{2028}', '\u{2029}', '\u{202f}', '\u{205f}', '\u{3000}']
    {
        assert!(is_whitespace(c), "{:?}", c);
    }
    for c in ['a', '0', '*', '/', '\u{8}', '\u{e}', '\u{1f}', '\u{200b}', '\u{180e}', '\u{feff}'] {
        assert!(!is_whitespace(c), "{:?}", c);
    }
}

#[test]
fn whitespace_agrees_with_std_on_every_char() {
    let mut c = 0u32;
    while c <= 0x10ffff {
        if let Some(ch) = char::from_u32(c) {
            assert_eq!(is_whitespace(ch), ch.is_whitespace(), "U+{:04X}", c);
        }
        c += 1;
    }
}

#[test]
fn to_chars_keeps_every_char() {
    assert_eq!(to_chars("aé越"), vec!['a', 'é', '越']);
    assert_eq!(to_chars(""), Vec::<char>::new());
}

#[test]
fn split_whitespace_gives_the_maximal_runs() {
    assert_eq!(split_whitespace("a b"), vec![s("a"), s("b")]);
    assert_eq!(split_whitespace("  a \t b\n"), vec![s("a"), s("b")]);
    assert_eq!(split_whitespace(""), Vec::<String>::new());
    assert_eq!(split_whitespace(" \t\n "), Vec::<String>::new());
    assert_eq!(split_whitespace("one"), vec![s("one")]);
    assert_eq!(split_whitespace("é\u{a0}越\u{3000}z"), vec![s("é"), s("越"), s("z")]);
}

#[test]
fn split_whitespace_agrees_with_std() {
    for line in ["", " ", "a", " a", "a ", "a  b", "*/5 * * * * x run /p >> /p/.log 2>&1",
        "\ta\u{2003}b\r\nc", "x\u{85}y"]
    {
        let expected: Vec<String> = line.split_whitespace().map(|t| t.to_string()).collect();
        assert_eq!(split_whitespace(line), expected, "{:?}", line);
    }
}

#[test]
fn split_lines_ends_lines_at_line_feeds() {
    assert_eq!(split_lines("a\nb"), vec![s("a"), s("b")]);
    assert_eq!(split_lines("a\nb\n"), vec![s("a"), s("b")]);
    assert_eq!(split_lines("a\r\nb\r\n"), vec![s("a"), s("b")]);
    assert_eq!(split_lines("a\n\nb"), vec![s("a"), s(""), s("b")]);
    assert_eq!(split_lines(""), Vec::<String>::new());
    assert_eq!(split_lines("\n"), vec![s("")]);
    assert_eq!(split_lines("a\rb"), vec![s("a\rb")]);
    assert_eq!(split_lines("a\r"), vec![s("a\r")]);
    assert_eq!(split_lines("\r\n"), vec![s("")]);
}

#[test]
fn split_lines_agrees_with_std() {
    for text in ["", "\n", "\n\n", "a", "a\n", "a\r\n", "a\r", "\r", "\r\r\n", "x\ny\r\nz",
        "é\n越\r\n", "a\n\r\nb\n\n"]
    {
        let expected: Vec<String> = text.lines().map(|t| t.to_string()).collect();
        assert_eq!(split_lines(text), expected, "{:?}", text);
    }
}

#[test]
fn contains_finds_a_text_anywhere() {
    assert!(contains("autocommit", "autocommit"));
    assert!(contains("* * * * * /bin/autocommit run", "autocommit"));
    assert!(contains("xautocommit", "autocommit"));
    assert!(contains("abc", ""));
    assert!(contains("", ""));
    assert!(!contains("", "a"));
    assert!(!contains("autocommi", "autocommit"));
    assert!(!contains("auto commit", "autocommit"));
    assert!(contains("aab", "ab"));
    assert!(contains("é越é", "越"));
}

#[test]
fn join_puts_the_separator_between() {
    assert_eq!(join(&[s("a"), s("b"), s("c")], " "), "a b c");
    assert_eq!(join(&[s("a")], " "), "a");
    assert_eq!(join(&[], " "), "");
    assert_eq!(join(&[s(""), s("")], "-"), "-");
    assert_eq!(join(&[s("a"), s("b")], ""), "ab");
    assert_eq!(join(&[s("x"), s("y")], "\n"), "x\ny");
}

#[test]
fn to_decimal_writes_numerals() {
    assert_eq!(to_decimal(0), "0");
    assert_eq!(to_decimal(7), "7");
    assert_eq!(to_decimal(10), "10");
    assert_eq!(to_decimal(905), "905");
    assert_eq!(to_decimal(u32::MAX), "4294967295");
}
