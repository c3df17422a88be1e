use cli_text_analyzer::text::char_is_whitespace;
use cli_text_analyzer::{get_words_count, tokenize};

#[test]
fn get_words_count_zero() {
    let result = get_words_count(&String::from(""));
    assert_eq!(result, 0);
}

#[test]
fn get_words_count_two() {
    let result = get_words_count(&String::from("a b"));
    assert_eq!(result, 2);
}

#[test]
fn empty_line_has_no_words() {
    assert_eq!(tokenize(""), Vec::<String>::new());
}

#[test]
fn blank_line_has_no_words() {
    assert_eq!(tokenize("  "), Vec::<String>::new());
    assert_eq!(tokenize(" \t \u{3000}\r"), Vec::<String>::new());
    assert_eq!(get_words_count(&String::from(" \t ")), 0);
}

#[test]
fn words_are_split_on_runs_of_whitespace() {
    assert_eq!(tokenize("  hello \t  world  "), vec!["hello", "world"]);
    assert_eq!(tokenize("a\u{a0}b\u{2003}c"), vec!["a", "b", "c"]);
    assert_eq!(tokenize("one"), vec!["one"]);
    assert_eq!(tokenize("one two"), vec!["one", "two"]);
}

#[test]
fn punctuation_is_a_word() {
    assert_eq!(tokenize("-- ... end."), vec!["--", "...", "end."]);
    assert_eq!(get_words_count(&String::from("! ? !")), 3);
}

#[test]
fn words_keep_their_case_and_order() {
    assert_eq!(tokenize("The the THE"), vec!["The", "the", "THE"]);
}

#[test]
fn tokenize_is_repeatable() {
    let line = "to be  or not to be";
    assert_eq!(tokenize(line), tokenize(line));
    assert_eq!(tokenize(line).len(), 6);
}

#[test]
fn word_count_is_number_of_tokens() {
    for line in ["", " ", "a", " a", "a ", "a b", "a  b", "\tx\ty\t", "é ü", "x\u{2028}y"] {
        assert_eq!(get_words_count(&String::from(line)), tokenize(line).len());
    }
}

#[test]
fn tokens_match_split_whitespace() {
    for line in ["", "  ", "hello world", " a\tb\nc ", "x\u{85}y\u{1680}z", "\u{200b}a b", "e\u{301} f"] {
        let expected: Vec<String> = line.split_whitespace().map(String::from).collect();
        assert_eq!(tokenize(line), expected);
        assert_eq!(get_words_count(&String::from(line)), expected.len());
    }
}

#[test]
fn whitespace_is_what_the_platform_calls_whitespace() {
    let mut code: u32 = 0;
    while code <= 0x10FFFF {
        if let Some(c) = char::from_u32(code) {
            assert_eq!(char_is_whitespace(c), c.is_whitespace());
        }
        code += 1;
    }
}

#[test]
fn single_whitespace_characters() {
    for c in [' ', '\t', '\n', '\u{b}', '\u{c}', '\r', '\u{85}', '\u{a0}', '\u{1680}', '\u{2000}',
        '\u{200a}', '\u{2028}', '\u{2029}', '\u{202f}', '\u{205f}', '\u{3000}']
    {
        assert!(char_is_whitespace(c));
    }
    for c in ['a', '0', '-', '\u{8}', '\u{e}', '\u{200b}', '\u{180e}', '\u{feff}', 'é'] {
        assert!(!char_is_whitespace(c));
    }
}
