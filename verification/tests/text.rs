use behat_lsp::text::{
    backslashes_to_slashes, chars_of, contains_text, decimal_of, same_text, string_of,
    strip_leading_backslashes, strip_start, trim, white_space,
};

#[test]
fn white_space_is_that_of_unicode() {
    let mut n: u32 = 0;
    while n <= 0x10ffff {
        if let Some(c) = char::from_u32(n) {
            assert_eq!(white_space(c), c.is_whitespace(), "{n:x}");
        }
        n += 1;
    }
}

#[test]
fn trim_takes_white_space_off_both_ends() {
    assert_eq!(trim(" \t a b\u{a0}\n"), "a b");
    assert_eq!(trim("   "), "");
    assert_eq!(trim(""), "");
    assert_eq!(trim("\u{3000}é\u{2003}"), "é");
}

#[test]
fn trim_twice_is_trim_once() {
    let once = trim("  x y  ");
    assert_eq!(trim(once.as_str()), once);
}

#[test]
fn leading_backslashes_go() {
    assert_eq!(strip_leading_backslashes("\\\\App\\Foo"), "App\\Foo");
    assert_eq!(strip_leading_backslashes("App"), "App");
    assert_eq!(strip_leading_backslashes("\\"), "");
}

#[test]
fn leading_backslashes_go_at_once() {
    let once = strip_leading_backslashes("\\\\\\A\\B");
    assert_eq!(strip_leading_backslashes(once.as_str()), once);
}

#[test]
fn backslashes_turn_into_slashes() {
    assert_eq!(backslashes_to_slashes("App\\Sub\\Foo/x"), "App/Sub/Foo/x");
    assert_eq!(backslashes_to_slashes(""), "");
}

#[test]
fn a_prefix_is_stripped_where_it_is_there() {
    assert_eq!(strip_start("App\\Foo", "App\\"), Some("Foo".to_string()));
    assert_eq!(strip_start("App", ""), Some("App".to_string()));
    assert_eq!(strip_start("App", "App"), Some(String::new()));
    assert_eq!(strip_start("App", "Apple"), None);
    assert_eq!(strip_start("App", "B"), None);
}

#[test]
fn numbers_are_written_in_decimal() {
    let mut n: usize = 0;
    while n < 1200 {
        assert_eq!(decimal_of(n), format!("{n}"));
        n += 1;
    }
    assert_eq!(decimal_of(usize::MAX), format!("{}", usize::MAX));
}

#[test]
fn texts_are_found_by_what_they_hold() {
    let texts = vec!["a".to_string(), "bc".to_string()];
    assert!(contains_text(&texts, "bc"));
    assert!(!contains_text(&texts, "b"));
    assert!(!contains_text(&Vec::new(), ""));
    assert!(same_text("é", "é"));
    assert!(!same_text("e", "é"));
}

#[test]
fn characters_make_texts_again() {
    let chars = chars_of("aéz");
    assert_eq!(chars, vec!['a', 'é', 'z']);
    assert_eq!(string_of(&chars, 1, 3), "éz");
    assert_eq!(string_of(&chars, 2, 2), "");
}
