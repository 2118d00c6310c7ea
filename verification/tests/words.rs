use tidy::chars::to_ascii_lower;
use tidy::word::{
    find_char, from_chars, lowercase_word, proper_prefix, remove_integers,
    remove_through_first_tab, to_chars, trim_word,
};

#[test]
fn chars_round_trip() {
    let v = to_chars("h\u{e9}llo");
    assert_eq!(v, vec!['h', '\u{e9}', 'l', 'l', 'o']);
    assert_eq!(from_chars(&v, 0, 5), "h\u{e9}llo");
    assert_eq!(from_chars(&v, 1, 3), "\u{e9}l");
    assert_eq!(from_chars(&v, 2, 2), "");
}

#[test]
fn find_char_gives_the_first_position() {
    let v = to_chars("a,b,c");
    assert_eq!(find_char(&v, ','), Some(1));
    assert_eq!(find_char(&v, 'c'), Some(4));
    assert_eq!(find_char(&v, 'x'), None);
}

#[test]
fn first_tab_and_what_precedes_it_leave() {
    assert_eq!(remove_through_first_tab("17\tapple".to_string()), "apple");
    assert_eq!(remove_through_first_tab("apple".to_string()), "apple");
    assert_eq!(remove_through_first_tab("a\tb\tc".to_string()), "b\tc");
    assert_eq!(remove_through_first_tab("\t".to_string()), "");
    assert_eq!(remove_through_first_tab("".to_string()), "");
}

#[test]
fn numeric_characters_leave() {
    assert_eq!(remove_integers("h3ll0".to_string()), "hll");
    assert_eq!(remove_integers("2024".to_string()), "");
    assert_eq!(remove_integers("word".to_string()), "word");
    // Arabic-Indic digit three, vulgar fraction, circled digit.
    assert_eq!(remove_integers("a\u{663}b\u{be}c\u{2460}".to_string()), "abc");
    assert_eq!(remove_integers("K\u{85cf}".to_string()), "K\u{85cf}");
}

#[test]
fn trimming_takes_whitespace_from_both_ends() {
    assert_eq!(trim_word("  banana  "), "banana");
    assert_eq!(trim_word("\t\r\n x y \u{b}\u{c}"), "x y");
    assert_eq!(trim_word("\u{a0}\u{3000}z\u{2028}"), "z");
    assert_eq!(trim_word("   "), "");
    assert_eq!(trim_word(""), "");
    assert_eq!(trim_word("a"), "a");
    assert_eq!(trim_word("\u{200b}a"), "\u{200b}a");
}

#[test]
fn folding_touches_ascii_capitals_only() {
    assert_eq!(lowercase_word("Hello World"), "hello world");
    assert_eq!(lowercase_word("AZaz@[`{"), "azaz@[`{");
    assert_eq!(lowercase_word("\u{c4}RGER"), "\u{c4}rger");
    assert_eq!(to_ascii_lower('Q'), 'q');
    assert_eq!(to_ascii_lower('q'), 'q');
    assert_eq!(to_ascii_lower('\u{d6}'), '\u{d6}');
}

#[test]
fn proper_prefix_is_strict_and_literal() {
    assert!(proper_prefix("cat", "cats"));
    assert!(!proper_prefix("cat", "cat"));
    assert!(!proper_prefix("cats", "cat"));
    assert!(!proper_prefix("cab", "cats"));
    assert!(proper_prefix("", "a"));
    assert!(!proper_prefix("", ""));
    assert!(proper_prefix("\u{e9}", "\u{e9}t\u{e9}"));
    assert!(!proper_prefix("e", "\u{e9}t\u{e9}"));
}
