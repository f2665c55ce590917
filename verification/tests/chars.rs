use tinyasm::chars::{digit, space, word};
use tinyasm::cleaner::clean_code;

#[test]
fn white_space_is_the_unicode_property() {
    for c in '\0'..=char::MAX {
        assert_eq!(space(c), c.is_whitespace(), "{:?}", c);
    }
}

#[test]
fn digits_are_the_ascii_digits() {
    for c in '\0'..=char::MAX {
        assert_eq!(digit(c), c.is_ascii_digit(), "{:?}", c);
    }
}

#[test]
fn word_characters_are_letters_and_underscore() {
    assert!(word('a'));
    assert!(word('Z'));
    assert!(word('_'));
    assert!(word('\u{e9}'));
    assert!(word('\u{4e2d}'));
    assert!(!word('1'));
    assert!(!word(' '));
    assert!(!word('-'));
    assert!(!word('$'));
}

#[test]
fn collapsing_knows_the_same_white_space() {
    for c in '\0'..='\u{3100}' {
        if c == '\n' {
            continue;
        }
        let source = format!("a{}{}b", c, c);
        let cleaned = clean_code(source.clone());
        if c == '/' {
            assert_eq!(cleaned, "a");
        } else if space(c) {
            assert_eq!(cleaned, "a b", "{:?}", c);
        } else {
            assert_eq!(cleaned, source, "{:?}", c);
        }
    }
}

#[test]
fn collapsing_takes_the_whole_run_from_the_left() {
    assert_eq!(clean_code("a \t\r\u{b}\u{c} \u{85}\u{a0}b".to_string()), "a b");
    assert_eq!(clean_code("a\u{1f}\u{1f}b".to_string()), "a\u{1f}\u{1f}b");
    assert_eq!(clean_code("a\u{200b}\u{200b}b".to_string()), "a\u{200b}\u{200b}b");
    assert_eq!(clean_code("  a  b  ".to_string()), " a b ");
    assert_eq!(clean_code("a \tb\t c".to_string()), "a b c");
    assert_eq!(clean_code("   ".to_string()), " ");
}
