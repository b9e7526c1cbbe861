use nea::text::{
    chars_of, find, is_space, lines, parse_number, push_decimal, push_two_digits, same_text,
    split_once, to_ascii_lowercase, words,
};

const TEXTS: [&str; 14] = [
    "",
    "a",
    "\n",
    "\r\n",
    "a\nb",
    "a\r\nb\r\n",
    "a\r\n\r\nb",
    "  one two\tthree \u{3000}four ",
    "key: value: more",
    "\rlone\r",
    "\u{e9}t\u{e9} \u{2028} \u{85}x",
    "a, b, c",
    "GET /path HTTP/1.1\r\nHost: x\r\n\r\nbody",
    " ",
];

#[test]
fn white_space_is_that_of_the_standard_library() {
    for code in 0..0x3100u32 {
        if let Some(c) = char::from_u32(code) {
            assert_eq!(is_space(c), c.is_whitespace(), "{code}");
        }
    }
    assert!(!is_space('\u{10FFFF}'));
}

#[test]
fn texts_are_cut_like_the_standard_library_cuts_them() {
    for text in TEXTS {
        assert_eq!(lines(text), text.lines().collect::<Vec<&str>>(), "{text:?}");
        assert_eq!(words(text), text.split_whitespace().collect::<Vec<&str>>(), "{text:?}");
        for pattern in [": ", "\r\n", "\r\n\r\n", " ", ", ", "/"] {
            assert_eq!(split_once(text, pattern), text.split_once(pattern), "{text:?}");
        }
        assert_eq!(chars_of(text), text.chars().collect::<Vec<char>>());
        assert_eq!(to_ascii_lowercase(text), text.to_ascii_lowercase());
    }
    assert_eq!(to_ascii_lowercase("Wa\u{c9}RN@[Z"), "wa\u{c9}rn@[z");
}

#[test]
fn patterns_are_found_from_a_position_on() {
    let text = chars_of("abcabc");
    let pattern = chars_of("bc");
    assert_eq!(find(&text, &pattern, 0), Some(1));
    assert_eq!(find(&text, &pattern, 2), Some(4));
    assert_eq!(find(&text, &pattern, 5), None);
}

#[test]
fn numbers_are_read_like_the_standard_library_reads_them() {
    for text in [
        "", "0", "7", "+7", "-7", "007", "12a", "+", " 1", "18446744073709551615",
        "18446744073709551616", "99999999999999999999", "1_000", "\u{0663}",
    ] {
        assert_eq!(parse_number(text), text.parse::<usize>().ok(), "{text:?}");
    }
}

#[test]
fn numbers_survive_the_round_trip() {
    for n in [0u64, 1, 9, 10, 99, 100, 12345, u64::MAX] {
        let mut text = String::new();
        push_decimal(&mut text, n);
        assert_eq!(text, n.to_string());
        assert_eq!(parse_number(&text), Some(n as usize));
    }
}

#[test]
fn short_numbers_are_padded() {
    for n in [0u64, 5, 9, 10, 42, 123] {
        let mut text = String::from("=");
        push_two_digits(&mut text, n);
        assert_eq!(text, format!("={n:02}"));
    }
}

#[test]
fn texts_are_compared_as_a_whole() {
    assert!(same_text("", ""));
    assert!(same_text("abc", "abc"));
    assert!(!same_text("abc", "abd"));
    assert!(!same_text("abc", "ab"));
}
