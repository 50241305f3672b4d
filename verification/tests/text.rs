use online_squares::text::{
    chars_of, contains_pattern, find_char_in, parse_usize, split_chars, string_of_range, trim_chars,
};

fn chars(s: &str) -> Vec<char> {
    s.chars().collect()
}

#[test]
fn chars_follow_the_text() {
    assert_eq!(chars_of("aé~"), vec!['a', 'é', '~']);
}

#[test]
fn range_of_characters() {
    assert_eq!(string_of_range(&chars("player"), 1, 4), "lay");
    assert_eq!(string_of_range(&chars("player"), 2, 2), "");
}

#[test]
fn first_position_of_a_character() {
    assert_eq!(find_char_in(&chars("a~b~"), '~'), Some(1));
    assert_eq!(find_char_in(&chars("abc"), '~'), None);
}

#[test]
fn pattern_search() {
    assert!(contains_pattern(&chars("xx(DISCONNECT)yy"), &chars("(DISCONNECT)")));
    assert!(!contains_pattern(&chars("(DISCONNEC"), &chars("(DISCONNECT)")));
    assert!(contains_pattern(&chars("abc"), &chars("")));
}

#[test]
fn split_keeps_empty_pieces() {
    assert_eq!(split_chars(&chars("a;b;"), ';'), vec!["a", "b", ""]);
    assert_eq!(split_chars(&chars(""), ';'), vec![""]);
    assert_eq!(split_chars(&chars(";;"), ';'), vec!["", "", ""]);
}

#[test]
fn split_then_join_gives_back_the_text() {
    let text = "3:ann::1,2,3:hi";
    assert_eq!(split_chars(&chars(text), ':').join(":"), text);
}

#[test]
fn trim_removes_unicode_white_space() {
    assert_eq!(trim_chars(&chars("  x y \n")), "x y");
    assert_eq!(trim_chars(&chars("\u{a0}1,2\u{3000}")), "1,2");
    assert_eq!(trim_chars(&chars(" \t ")), "");
}

#[test]
fn parse_usize_as_std_does() {
    for s in ["42", "+7", "", "+", "-1", " 1", "007", "18446744073709551615", "18446744073709551616", "1x"] {
        assert_eq!(parse_usize(&chars(s)), s.parse::<usize>().ok(), "{}", s);
    }
    assert_eq!(parse_usize(&chars("+12")), Some(12));
}
