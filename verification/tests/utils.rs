use zhang::utils::{escape_character, escape_with_quote};

#[test]
fn test_escapse_with_quote() {
    assert_eq!(r#""a""#, escape_with_quote("a"));
    assert_eq!(r#""a\"""#, escape_with_quote("a\""));
    assert_eq!(r#""a\$""#, escape_with_quote("a$"));
    assert_eq!(r#""a\\""#, escape_with_quote("a\\"));
    assert_eq!(r#""a ""#, escape_with_quote("a "));
    assert_eq!(r#""\`""#, escape_with_quote("`"));
    assert_eq!(r#""\a\b\v\f\e""#, escape_with_quote("\u{07}\u{08}\u{0b}\u{0c}\u{1b}"));
}

#[test]
fn escape_with_quote_escapes_controls_and_separators() {
    assert_eq!(r#""a\tb\nc""#, escape_with_quote("a\tb\nc"));
    assert_eq!(r#""\u{202e}RTL""#, escape_with_quote("\u{202e}RTL"));
    assert_eq!(r#""你 好""#, escape_with_quote("你 好"));
}

#[test]
fn escape_character_writes_short_escapes() {
    assert_eq!("\\a", escape_character('\u{07}'));
    assert_eq!("\\n", escape_character('\n'));
    assert_eq!("\\u{0}", escape_character('\u{0}'));
}

#[test]
fn escape_with_quote_only_wraps_letters_and_digits() {
    assert_eq!("\"abcXYZ019\"", zhang::utils::escape_with_quote("abcXYZ019"));
    assert_eq!("\"\"", zhang::utils::escape_with_quote(""));
}
