use spotlauncher::text::{chars_of, contains_chars, lex_less, trim};

fn v(s: &str) -> Vec<char> {
    s.chars().collect()
}

#[test]
fn chars_of_gives_each_character() {
    assert_eq!(chars_of("héllo"), vec!['h', 'é', 'l', 'l', 'o']);
    assert!(chars_of("").is_empty());
}

#[test]
fn contains_chars_finds_runs() {
    assert!(contains_chars(&v("firefox"), &v("ref")));
    assert!(contains_chars(&v("firefox"), &v("firefox")));
    assert!(contains_chars(&v("firefox"), &v("")));
    assert!(contains_chars(&v(""), &v("")));
    assert!(!contains_chars(&v("firefox"), &v("fox!")));
    assert!(!contains_chars(&v("fire"), &v("firefox")));
    assert!(!contains_chars(&v("f-i-r-e"), &v("fire")));
    assert!(contains_chars(&v("aaab"), &v("aab")));
}

#[test]
fn lex_less_is_the_order_of_strings() {
    let cases = ["", "a", "ab", "b", "B", "é", "z", "zz", "日本"];
    for x in cases.iter() {
        for y in cases.iter() {
            assert_eq!(lex_less(&v(x), &v(y)), x < y, "{} < {}", x, y);
        }
    }
}

#[test]
fn trim_removes_unicode_whitespace_at_both_ends() {

    assert_eq!(trim("  /tmp/a b \t\n"), "/tmp/a b");
    assert_eq!(trim("\u{3000}x\u{00A0}"), "x");
    assert_eq!(trim("   "), "");
    assert_eq!(trim(""), "");
    assert_eq!(trim("a"), "a");
}

#[test]
fn is_whitespace_agrees_with_char_is_whitespace() {

    for u in 0u32..0x3100 {
        if let Ok(c) = char::try_from(u) {
            assert_eq!(spotlauncher::text::is_whitespace(c), c.is_whitespace(), "U+{:04X}", u);
        }
    }
    assert!(!spotlauncher::text::is_whitespace('\u{FEFF}'));
    assert!(!spotlauncher::text::is_whitespace('\u{200B}'));
}
